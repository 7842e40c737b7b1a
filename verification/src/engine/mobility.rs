//! Piece mobility, king safety and control of space.

use vstd::prelude::*;

use crate::chess::attacks::{atk_bishop, atk_king, atk_rook};
use crate::chess::bitboard::{self, Bitboard, Direction};
use crate::chess::census;
use crate::chess::defs::TOTAL_PHASE;
use crate::chess::geom;
use crate::chess::position::{self, Position};
use crate::chess::rules::{self, Cell};
use crate::chess::spatial::{self, piece_mobility, men_meeting, side_reach, SpatialMaps, XorBoard};
use crate::chess::types::{Color, PieceType, Square};
use crate::engine::eval_params::{
    ATTACKER, EG_MOBILITY_CLOSED, EG_MOBILITY_OPEN, KING_SAFETY, MG_MOBILITY_CLOSED, MG_MOBILITY_OPEN,
};
use crate::engine::history;

verus! {

/// What each pair of pawns locked head to head takes off openness.
pub const RAM_SCALE: i32 = 82;

/// What each pawn takes off openness.
pub const PAWN_SCALE: i32 = 20;

/// Full openness.
pub const OPEN_UNITY: i32 = 1024;

/// A black pawn stands right in front of a white one.
pub open spec fn rams(us: Bitboard, them: Bitboard) -> int {
    census::tally(|s: int| us.has(s - 8) && them.has(s), 64)
}

/// All pawns.
pub open spec fn pawns(us: Bitboard, them: Bitboard) -> int {
    census::tally(|s: int| us.has(s) || them.has(s), 64)
}

/// How open the board is: full, less a share for every locked pair and every pawn.
pub open spec fn openness(us: Bitboard, them: Bitboard) -> int {
    history::clamped(OPEN_UNITY - RAM_SCALE * rams(us, them) - PAWN_SCALE * pawns(us, them), 0, OPEN_UNITY as int)
}

/// How open the board is, from the white pawns and the black pawns.
///
/// The order matters: with the sides swapped, pairs that are not locked would count.
pub fn compute_openness_raw(us_pawns: u64, them_pawns: u64) -> (r: i32)
    ensures
        r == openness(Bitboard(us_pawns), Bitboard(them_pawns)),
        0 <= r <= OPEN_UNITY,
{
    let us = Bitboard(us_pawns);
    let them = Bitboard(them_pawns);
    let locked = us.shift(Direction::North).and(them);
    let all = us.or(them);
    proof {
        bitboard::lemma_on_board(us);
        census::lemma_count(locked, |s: int| us.has(s - 8) && them.has(s));
        census::lemma_count(all, |s: int| us.has(s) || them.has(s));
    }
    let r: i32 = OPEN_UNITY - RAM_SCALE * locked.popcount() as i32 - PAWN_SCALE * all.popcount() as i32;
    if r < 0 {
        0
    } else {
        r
    }
}

/// Square `t` next to the king of side `c`.
pub open spec fn zone(b: Seq<Cell>, c: Color, t: int) -> bool {
    geom::king_step(position::king_of(b, c), t)
}

/// The man on `a` belongs to the enemy of side `c` and bears on a square next to its king.
pub open spec fn assails(b: Seq<Cell>, c: Color, a: int) -> bool {
    rules::owned(b, a, c.other()) && exists|t: int| geom::on_board(t) && #[trigger] zone(b, c, t) && spatial::reach(b, a, t)
}

/// Side `c` sees `t` past the first man on a line.
pub open spec fn shade(p: Position, c: Color, t: int) -> bool {
    spatial::shadowed(p.board(), p.occ, c, true, t) || spatial::shadowed(p.board(), p.occ, c, false, t)
}

/// The squares that no enemy pawn attacks.
pub open spec fn safe_area(b: Seq<Cell>, c: Color, area: Bitboard) -> bool {
    forall|s: int| #[trigger] area.has(s) <==> geom::on_board(s) && !spatial::pawn_borne(b, c.other(), s)
}

/// What one side controls.
#[derive(Clone, Copy, Debug, PartialEq, Eq, Structural)]
pub struct SideMetrics {
    /// Squares off enemy pawn attacks that the men bear on, summed man by man.
    pub mobility: i32,
    /// Squares off enemy pawn attacks that sliders see past a man.
    pub shadow_mobility: i32,
    /// Enemy men that the men bear on.
    pub threats: i32,
    /// Enemy men that sliders see past a man.
    pub shadow_threats: i32,
}

impl SideMetrics {
    /// Whether these are the metrics of side `c` in position `p`.
    pub open spec fn of(self, p: Position, c: Color) -> bool {
        let b = p.board();
        &&& exists|area: Bitboard| #[trigger]
            safe_area(b, c, area) && self.mobility == spatial::mobility_below(b, c, area, 64)
        &&& self.shadow_mobility == census::tally(|t: int| shade(p, c, t) && !spatial::pawn_borne(b, c.other(), t), 64)
        &&& self.threats == census::tally(|t: int| spatial::borne(b, c, t) && rules::owned(b, t, c.other()), 64)
        &&& self.shadow_threats == census::tally(|t: int| shade(p, c, t) && rules::owned(b, t, c.other()), 64)
    }

    /// No metric is out of proportion.
    pub open spec fn small(self) -> bool {
        &&& 0 <= self.mobility <= 4096
        &&& 0 <= self.shadow_mobility <= 64
        &&& 0 <= self.threats <= 64
        &&& 0 <= self.shadow_threats <= 64
    }

    /// These metrics less those of the other side, in the order of the weights.
    pub fn diff(&self, them: &SideMetrics) -> (d: [i32; 4])
        requires
            self.small(),
            them.small(),
        ensures
            d[0] == self.mobility - them.mobility,
            d[1] == self.shadow_mobility - them.shadow_mobility,
            d[2] == self.threats - them.threats,
            d[3] == self.shadow_threats - them.shadow_threats,
    {
        [
            self.mobility - them.mobility,
            self.shadow_mobility - them.shadow_mobility,
            self.threats - them.threats,
            self.shadow_threats - them.shadow_threats,
        ]
    }
}

/// The surroundings of one side's king.
#[derive(Clone, Copy, Debug, PartialEq, Eq, Structural)]
pub struct SafetyMetrics {
    /// Enemy men that bear on squares next to the king, at most five.
    pub attackers: usize,
    /// Squares next to the king that enemy men bear on and no man of ours does.
    pub weak: i32,
    /// Pawns of ours next to the king.
    pub shield: i32,
    /// Squares a rook would see from the king's.
    pub ortho_exposure: i32,
    /// Squares a bishop would see from the king's.
    pub diag_exposure: i32,
}

impl SafetyMetrics {
    /// Whether these are the metrics of side `c`'s king in position `p`.
    pub open spec fn of(self, p: Position, c: Color) -> bool {
        let b = p.board();
        let k = position::king_of(b, c);
        &&& self.attackers == history::clamped(census::tally(|a: int| assails(b, c, a), 64), 0, 5)
        &&& self.weak == census::tally(
            |t: int| zone(b, c, t) && spatial::borne(b, c.other(), t) && !spatial::borne(b, c, t),
            64,
        )
        &&& self.shield == census::tally(|t: int| zone(b, c, t) && b[t] == rules::man(c, PieceType::Pawn), 64)
        &&& self.ortho_exposure == census::tally(|t: int| geom::rook_sees(p.occ, k, t), 64)
        &&& self.diag_exposure == census::tally(|t: int| geom::bishop_sees(p.occ, k, t), 64)
    }

    /// No metric is out of proportion.
    pub open spec fn small(self) -> bool {
        &&& self.attackers <= 5
        &&& 0 <= self.weak <= 64
        &&& 0 <= self.shield <= 64
        &&& 0 <= self.ortho_exposure <= 64
        &&& 0 <= self.diag_exposure <= 64
    }

    /// Shelter less exposure: positive for a king that is well covered.
    pub open spec fn covered(self) -> int {
        self.shield * KING_SAFETY[0] - (self.ortho_exposure * KING_SAFETY[1] + self.diag_exposure * KING_SAFETY[2])
    }

    /// What the attackers weigh against this king.
    pub open spec fn pressed(self) -> int {
        history::quotient(ATTACKER[self.attackers as int] * self.weak, 10)
    }

    /// Shelter less exposure: positive for a king that is well covered.
    pub fn shelter(&self) -> (r: i32)
        requires
            self.small(),
        ensures
            r == self.covered(),
            -2000 <= r <= 2000,
    {
        self.shield * KING_SAFETY[0] - (self.ortho_exposure * KING_SAFETY[1] + self.diag_exposure * KING_SAFETY[2])
    }

    /// What the attackers weigh against this king. Their number picks the weight, and the
    /// weak squares multiply it.
    pub fn pressure(&self) -> (r: i32)
        requires
            self.small(),
        ensures
            r == self.pressed(),
            0 <= r <= 4000,
    {
        let w: i32 = ATTACKER[self.attackers];
        assert(0 <= w <= 581);
        let x: i32 = self.weak;
        assert(0 <= w * x <= 581 * 64) by (nonlinear_arith)
            requires
                0 <= w <= 581,
                0 <= x <= 64,
        ;
        w * x / 10
    }

    /// Measures the surroundings of the king of side `c`.
    ///
    /// The enemy's king stands on `ksq_them`, and its pinned men are `held_them`.
    fn analyze(
        p: &Position,
        c: Color,
        ksq: Square,
        ksq_them: Square,
        held_them: Bitboard,
        atk_us: Bitboard,
        atk_them: Bitboard,
    ) -> (m: SafetyMetrics)
        requires
            p.mirrored(),
            ksq.ok(),
            ksq.at() == position::king_of(p.board(), c),
            ksq_them.ok(),
            ksq_them.at() == position::king_of(p.board(), c.other()),
            forall|s: int| #[trigger]
                held_them.has(s) <==> rules::owned(p.board(), s, c.other()) && spatial::pinned(p.board(), s),
            forall|t: int| #[trigger] atk_us.has(t) <==> geom::on_board(t) && spatial::borne(p.board(), c, t),
            forall|t: int| #[trigger] atk_them.has(t) <==> geom::on_board(t) && spatial::borne(p.board(), c.other(), t),
        ensures
            m.of(*p, c),
            m.small(),
    {
        let ghost b = p.board();
        let ghost k = ksq.at();
        let ring = atk_king(ksq);
        let hit = ring.and(atk_them);
        let men = men_meeting(p, c.opposite(), held_them, ksq_them, ring);
        let soft = hit.and(atk_us.not());
        let cover = ring.and(p.pieces(PieceType::Pawn, c));
        let ortho = atk_rook(ksq, p.occ);
        let diag = atk_bishop(ksq, p.occ);
        proof {
            assert forall|a: int| geom::on_board(a) implies (#[trigger] men.has(a) <==> assails(b, c, a)) by {
                if men.has(a) {
                    let t = choose|t: int| geom::on_board(t) && #[trigger] ring.has(t) && spatial::reach(b, a, t);
                    assert(zone(b, c, t));
                }
                if assails(b, c, a) {
                    let t = choose|t: int| geom::on_board(t) && #[trigger] zone(b, c, t) && spatial::reach(b, a, t);
                    assert(ring.has(t));
                }
            }
            census::lemma_count(men, |a: int| assails(b, c, a));
            census::lemma_count(
                soft,
                |t: int| zone(b, c, t) && spatial::borne(b, c.other(), t) && !spatial::borne(b, c, t),
            );
            census::lemma_count(cover, |t: int| zone(b, c, t) && b[t] == rules::man(c, PieceType::Pawn));
            census::lemma_count(ortho, |t: int| geom::rook_sees(p.occ, k, t));
            census::lemma_count(diag, |t: int| geom::bishop_sees(p.occ, k, t));
        }
        let n: u32 = men.popcount();
        SafetyMetrics {
            attackers: if n > 5 {
                5
            } else {
                n as usize
            },
            weak: soft.popcount() as i32,
            shield: cover.popcount() as i32,
            ortho_exposure: ortho.popcount() as i32,
            diag_exposure: diag.popcount() as i32,
        }
    }
}

/// Everything measured of one position; `us` is white throughout.
#[derive(Clone, Copy, Debug, PartialEq, Eq, Structural)]
pub struct SpatialMetrics {
    pub metrics_us: SideMetrics,
    pub metrics_them: SideMetrics,
    pub safety_us: SafetyMetrics,
    pub safety_them: SafetyMetrics,
}

impl SpatialMetrics {
    /// Whether these are the metrics of position `p`.
    pub open spec fn of(self, p: Position) -> bool {
        &&& self.metrics_us.of(p, Color::White)
        &&& self.metrics_them.of(p, Color::Black)
        &&& self.safety_us.of(p, Color::White)
        &&& self.safety_them.of(p, Color::Black)
    }

    pub open spec fn small(self) -> bool {
        self.metrics_us.small() && self.metrics_them.small() && self.safety_us.small() && self.safety_them.small()
    }
}

/// One weight between its open and its closed value.
pub open spec fn blend(open: int, closed: int, o: int) -> int {
    (open * o + closed * (OPEN_UNITY - o) + OPEN_UNITY / 2) / (OPEN_UNITY as int)
}

/// The metrics of one side less those of the other, weighed for a board of openness `o`.
pub open spec fn weighed(us: SideMetrics, them: SideMetrics, open: Seq<i32>, closed: Seq<i32>, o: int) -> int {
    (us.mobility - them.mobility) * blend(open[0] as int, closed[0] as int, o) + (us.shadow_mobility - them.shadow_mobility)
        * blend(open[1] as int, closed[1] as int, o) + (us.threats - them.threats) * blend(
        open[2] as int,
        closed[2] as int,
        o,
    ) + (us.shadow_threats - them.shadow_threats) * blend(open[3] as int, closed[3] as int, o)
}

/// A middlegame and an endgame value weighed by the phase of the game.
pub open spec fn tapered(mg: int, eg: int, phase: int) -> int {
    history::quotient(mg * phase + eg * (TOTAL_PHASE - phase), TOTAL_PHASE as int)
}

/// The mobility score: what white controls less what black does.
pub open spec fn mobility_score(us: SideMetrics, them: SideMetrics, o: int, phase: int) -> int {
    tapered(
        weighed(us, them, MG_MOBILITY_OPEN@, MG_MOBILITY_CLOSED@, o),
        weighed(us, them, EG_MOBILITY_OPEN@, EG_MOBILITY_CLOSED@, o),
        phase,
    )
}

fn blended(open: i32, closed: i32, o: i32) -> (r: i32)
    requires
        -50 <= open <= 50,
        -50 <= closed <= 50,
        0 <= o <= OPEN_UNITY,
    ensures
        r == blend(open as int, closed as int, o as int),
        -51 <= r <= 51,
{
    let c: i32 = OPEN_UNITY - o;
    proof {
        assert(-50 * o <= open * o <= 50 * o) by (nonlinear_arith)
            requires
                -50 <= open <= 50,
                0 <= o,
        ;
        assert(-50 * c <= closed * c <= 50 * c) by (nonlinear_arith)
            requires
                -50 <= closed <= 50,
                0 <= c,
        ;
    }
    let x: i32 = open * o + closed * c + OPEN_UNITY / 2;
    (x + 102400) / 1024 - 100
}

/// The sum of four weighed differences.
fn dot(d: &[i32; 4], open: &[i32; 4], closed: &[i32; 4], o: i32) -> (r: i32)
    requires
        -4096 <= d[0] <= 4096,
        -64 <= d[1] <= 64,
        -64 <= d[2] <= 64,
        -64 <= d[3] <= 64,
        forall|i: int| 0 <= i < 4 ==> -50 <= #[trigger] open[i] <= 50,
        forall|i: int| 0 <= i < 4 ==> -50 <= #[trigger] closed[i] <= 50,
        0 <= o <= OPEN_UNITY,
    ensures
        r == d[0] * blend(open[0] as int, closed[0] as int, o as int) + d[1] * blend(open[1] as int, closed[1] as int, o as int)
            + d[2] * blend(open[2] as int, closed[2] as int, o as int) + d[3] * blend(
            open[3] as int,
            closed[3] as int,
            o as int,
        ),
        -300_000 <= r <= 300_000,
{
    let w0: i32 = blended(open[0], closed[0], o);
    let w1: i32 = blended(open[1], closed[1], o);
    let w2: i32 = blended(open[2], closed[2], o);
    let w3: i32 = blended(open[3], closed[3], o);
    let d0: i32 = d[0];
    let d1: i32 = d[1];
    let d2: i32 = d[2];
    let d3: i32 = d[3];
    proof {
        lemma_product(d0 as int, w0 as int, 4096, 51);
        lemma_product(d1 as int, w1 as int, 64, 51);
        lemma_product(d2 as int, w2 as int, 64, 51);
        lemma_product(d3 as int, w3 as int, 64, 51);
    }
    d0 * w0 + d1 * w1 + d2 * w2 + d3 * w3
}

/// A product is at most the product of the bounds.
pub proof fn lemma_product(x: int, y: int, bx: int, by_: int)
    requires
        -bx <= x <= bx,
        -by_ <= y <= by_,
    ensures
        -(bx * by_) <= x * y <= bx * by_,
{
    assert(-(bx * by_) <= x * y <= bx * by_) by (nonlinear_arith)
        requires
            -bx <= x <= bx,
            -by_ <= y <= by_,
    ;
}

/// Weighs a middlegame and an endgame value by the phase, dropping the fraction.
pub fn taper(mg: i32, eg: i32, phase: i32) -> (r: i32)
    requires
        -10_000_000 <= mg <= 10_000_000,
        -10_000_000 <= eg <= 10_000_000,
        0 <= phase <= TOTAL_PHASE,
    ensures
        r == tapered(mg as int, eg as int, phase as int),
        -10_000_000 <= r <= 10_000_000,
{
    let rest: i32 = TOTAL_PHASE - phase;
    proof {
        assert(-10_000_000 * phase <= mg * phase <= 10_000_000 * phase) by (nonlinear_arith)
            requires
                -10_000_000 <= mg <= 10_000_000,
                0 <= phase,
        ;
        assert(-10_000_000 * rest <= eg * rest <= 10_000_000 * rest) by (nonlinear_arith)
            requires
                -10_000_000 <= eg <= 10_000_000,
                0 <= rest,
        ;
    }
    let x: i32 = mg * phase + eg * rest;
    x / TOTAL_PHASE
}

/// A tapered value is within the bound of both.
pub proof fn lemma_tapered(mg: int, eg: int, phase: int, bound: int)
    requires
        -bound <= mg <= bound,
        -bound <= eg <= bound,
        0 <= phase <= TOTAL_PHASE,
        bound >= 0,
    ensures
        -bound <= tapered(mg, eg, phase) <= bound,
{
    let rest = TOTAL_PHASE - phase;
    assert(-bound * phase <= mg * phase <= bound * phase) by (nonlinear_arith)
        requires
            -bound <= mg <= bound,
            0 <= phase,
    ;
    assert(-bound * rest <= eg * rest <= bound * rest) by (nonlinear_arith)
        requires
            -bound <= eg <= bound,
            0 <= rest,
    ;
    assert(bound * phase + bound * rest == bound * 24) by (nonlinear_arith)
        requires
            phase + rest == 24,
    ;
    assert(-bound * phase + -bound * rest == -(bound * 24)) by (nonlinear_arith)
        requires
            phase + rest == 24,
    ;
}

/// The mobility of both sides.
pub struct Mobility;

impl Mobility {
    /// Measures a position, given its shadows and the pinned men of both sides.
    pub fn compute_all(
        pos: &Position,
        maps: &SpatialMaps,
        pinned_w: Bitboard,
        pinned_b: Bitboard,
        rows: Option<&XorBoard>,
    ) -> (m: SpatialMetrics)
        requires
            pos.mirrored(),
            position::one_king_each(pos.board()),
            maps.of(*pos),
            rows matches Some(x) ==> x.of(pos.board()),
            forall|s: int| #[trigger]
                pinned_w.has(s) <==> rules::owned(pos.board(), s, Color::White) && spatial::pinned(pos.board(), s),
            forall|s: int| #[trigger]
                pinned_b.has(s) <==> rules::owned(pos.board(), s, Color::Black) && spatial::pinned(pos.board(), s),
        ensures
            m.of(*pos),
            m.small(),
    {
        let ksq_us = pos.king_square(Color::White);
        let ksq_them = pos.king_square(Color::Black);
        let atk_us = side_reach(pos, Color::White, pinned_w, ksq_us);
        let atk_them = side_reach(pos, Color::Black, pinned_b, ksq_them);
        SpatialMetrics {
            metrics_us: score_side(pos, maps, Color::White, pinned_w, ksq_us, atk_us, rows),
            metrics_them: score_side(pos, maps, Color::Black, pinned_b, ksq_them, atk_them, rows),
            safety_us: SafetyMetrics::analyze(pos, Color::White, ksq_us, ksq_them, pinned_b, atk_us, atk_them),
            safety_them: SafetyMetrics::analyze(pos, Color::Black, ksq_them, ksq_us, pinned_w, atk_them, atk_us),
        }
    }

    /// The mobility score: what white controls less what black does, between the open and
    /// the closed weights by openness and between middlegame and endgame by phase.
    pub fn evaluate_score_diff(metrics_us: &SideMetrics, metrics_them: &SideMetrics, openness: i32, phase: i32) -> (r: i32)
        requires
            metrics_us.small(),
            metrics_them.small(),
            0 <= openness <= OPEN_UNITY,
            0 <= phase <= TOTAL_PHASE,
        ensures
            r == mobility_score(*metrics_us, *metrics_them, openness as int, phase as int),
            -300_000 <= r <= 300_000,
    {
        let d = metrics_us.diff(metrics_them);
        let mg_open = MG_MOBILITY_OPEN;
        let mg_closed = MG_MOBILITY_CLOSED;
        let eg_open = EG_MOBILITY_OPEN;
        let eg_closed = EG_MOBILITY_CLOSED;
        let mg: i32 = dot(&d, &mg_open, &mg_closed, openness);
        let eg: i32 = dot(&d, &eg_open, &eg_closed, openness);
        proof {
            lemma_tapered(mg as int, eg as int, phase as int, 300_000);
        }
        taper(mg, eg, phase)
    }

    /// How open the position is.
    pub fn compute_openness(pos: &Position) -> (r: i32)
        requires
            pos.mirrored(),
        ensures
            r == board_openness(pos.board()),
            0 <= r <= OPEN_UNITY,
    {
        let white = pos.pieces(PieceType::Pawn, Color::White);
        let black = pos.pieces(PieceType::Pawn, Color::Black);
        proof {
            let b = pos.board();
            census::lemma_tally_same(
                |s: int| white.has(s - 8) && black.has(s),
                |s: int| pawn_on(b, Color::White, s - 8) && pawn_on(b, Color::Black, s),
                64,
            );
            census::lemma_tally_same(
                |s: int| white.has(s) || black.has(s),
                |s: int| pawn_on(b, Color::White, s) || pawn_on(b, Color::Black, s),
                64,
            );
        }
        compute_openness_raw(white.0, black.0)
    }
}

/// Whether a pawn of side `c` stands on `s`.
pub open spec fn pawn_on(b: Seq<Cell>, c: Color, s: int) -> bool {
    geom::on_board(s) && b[s] == rules::man(c, PieceType::Pawn)
}

/// [`openness`] of the pawns on board `b`.
pub open spec fn board_openness(b: Seq<Cell>) -> int {
    history::clamped(
        OPEN_UNITY - RAM_SCALE * census::tally(
            |s: int| pawn_on(b, Color::White, s - 8) && pawn_on(b, Color::Black, s),
            64,
        ) - PAWN_SCALE * census::tally(|s: int| pawn_on(b, Color::White, s) || pawn_on(b, Color::Black, s), 64),
        0,
        OPEN_UNITY as int,
    )
}

/// Measures what side `c` controls.
fn score_side(
    pos: &Position,
    maps: &SpatialMaps,
    c: Color,
    held: Bitboard,
    ksq: Square,
    atk: Bitboard,
    rows: Option<&XorBoard>,
) -> (m: SideMetrics)
    requires
        pos.mirrored(),
        maps.of(*pos),
        rows matches Some(x) ==> x.of(pos.board()),
        ksq.ok(),
        ksq.at() == position::king_of(pos.board(), c),
        forall|s: int| #[trigger] held.has(s) <==> rules::owned(pos.board(), s, c) && spatial::pinned(pos.board(), s),
        forall|t: int| #[trigger] atk.has(t) <==> geom::on_board(t) && spatial::borne(pos.board(), c, t),
    ensures
        m.of(*pos, c),
        m.small(),
{
    let ghost b = pos.board();
    let ghost p = *pos;
    let them = pos.side(c.opposite());
    let enemy_pawns = pos.pawn_attacks(c.opposite());
    let area = enemy_pawns.not();
    assert(safe_area(b, c, area));
    let mobility: i32 = piece_mobility(pos, rows, c, held, ksq, area);
    let xray = maps.ortho_xray[c.idx()].or(maps.diag_xray[c.idx()]);
    let free = xray.and(area);
    let hit = atk.and(them);
    let shaded = xray.and(them);
    proof {
        census::lemma_count(free, |t: int| shade(p, c, t) && !spatial::pawn_borne(b, c.other(), t));
        census::lemma_count(hit, |t: int| spatial::borne(b, c, t) && rules::owned(b, t, c.other()));
        census::lemma_count(shaded, |t: int| shade(p, c, t) && rules::owned(b, t, c.other()));
    }
    SideMetrics {
        mobility,
        shadow_mobility: free.popcount() as i32,
        threats: hit.popcount() as i32,
        shadow_threats: shaded.popcount() as i32,
    }
}

/// With all pieces on the board the middlegame value counts alone, with none the endgame value;
/// between them each piece of the phase moves a twenty-fourth of the way.
pub proof fn law_the_phase_leads_from_middlegame_to_endgame(mg: int, eg: int, phase: int)
    requires
        0 <= phase <= 24,
    ensures
        tapered(mg, eg, 24) == mg,
        tapered(mg, eg, 0) == eg,
        tapered(24 * mg, 24 * eg, phase) == mg * phase + eg * (24 - phase),
        mg <= eg ==> mg <= tapered(mg, eg, phase) <= eg,
        eg <= mg ==> eg <= tapered(mg, eg, phase) <= mg,
        tapered(-mg, -eg, phase) == -tapered(mg, eg, phase),
{
    let rest = 24 - phase;
    assert(mg * 24 + eg * 0 == 24 * mg && mg * 0 + eg * 24 == 24 * eg) by (nonlinear_arith);
    assert((24 * mg) * phase + (24 * eg) * rest == 24 * (mg * phase + eg * rest)) by (nonlinear_arith);
    assert((-mg) * phase + (-eg) * rest == -(mg * phase + eg * rest)) by (nonlinear_arith);
    let lo = if mg <= eg {
        mg
    } else {
        eg
    };
    let hi = if mg <= eg {
        eg
    } else {
        mg
    };
    let x = mg * phase + eg * rest;
    assert(24 * lo <= x <= 24 * hi) by (nonlinear_arith)
        requires
            lo <= mg <= hi,
            lo <= eg <= hi,
            phase >= 0,
            rest >= 0,
            phase + rest == 24,
            x == mg * phase + eg * rest,
    ;
}

/// What a metric is worth on a fully open and on a fully closed board, in the middlegame and in
/// the endgame: white's metrics less black's, each with its own weight.
pub proof fn law_mobility_is_weighed_by_openness_and_phase(us: SideMetrics, them: SideMetrics)
    ensures
        ({
            let m = us.mobility - them.mobility;
            let sm = us.shadow_mobility - them.shadow_mobility;
            let t = us.threats - them.threats;
            let st = us.shadow_threats - them.shadow_threats;
            &&& mobility_score(us, them, 1024, 24) == 4 * m - 5 * sm + 4 * t + 4 * st
            &&& mobility_score(us, them, 0, 24) == m + 9 * sm - 16 * t - 6 * st
            &&& mobility_score(us, them, 1024, 0) == -5 * m - 8 * sm + 9 * t - 5 * st
            &&& mobility_score(us, them, 0, 0) == 27 * m + 14 * sm + 45 * t - 28 * st
        }),
{
    let a = weighed(us, them, MG_MOBILITY_OPEN@, MG_MOBILITY_CLOSED@, 1024);
    let b = weighed(us, them, EG_MOBILITY_OPEN@, EG_MOBILITY_CLOSED@, 1024);
    let c = weighed(us, them, MG_MOBILITY_OPEN@, MG_MOBILITY_CLOSED@, 0);
    let d = weighed(us, them, EG_MOBILITY_OPEN@, EG_MOBILITY_CLOSED@, 0);
    law_the_phase_leads_from_middlegame_to_endgame(a, b, 0);
    law_the_phase_leads_from_middlegame_to_endgame(c, d, 0);
    lemma_blend_ends(4, 1);
    lemma_blend_ends(-5, 9);
    lemma_blend_ends(4, -16);
    lemma_blend_ends(4, -6);
    lemma_blend_ends(-5, 27);
    lemma_blend_ends(-8, 14);
    lemma_blend_ends(9, 45);
    lemma_blend_ends(-5, -28);
    let m = us.mobility - them.mobility;
    let sm = us.shadow_mobility - them.shadow_mobility;
    let t = us.threats - them.threats;
    let st = us.shadow_threats - them.shadow_threats;
    assert(a == m * 4 + sm * -5 + t * 4 + st * 4);
    assert(b == m * -5 + sm * -8 + t * 9 + st * -5);
    assert(c == m * 1 + sm * 9 + t * -16 + st * -6);
    assert(d == m * 27 + sm * 14 + t * 45 + st * -28);
}

proof fn lemma_blend_ends(open: int, closed: int)
    ensures
        blend(open, closed, 1024) == open,
        blend(open, closed, 0) == closed,
{
    assert(open * 1024 + closed * (1024 - 1024) == 1024 * open) by (nonlinear_arith);
    assert(open * 0 + closed * (1024 - 0) == 1024 * closed) by (nonlinear_arith);
}

/// A weight on a half-open board lies between its open and its closed value.
pub proof fn law_a_weight_lies_between_open_and_closed(open: int, closed: int, o: int)
    requires
        0 <= o <= 1024,
    ensures
        open <= closed ==> open <= blend(open, closed, o) <= closed,
        closed <= open ==> closed <= blend(open, closed, o) <= open,
        blend(open, closed, 1024) == open,
        blend(open, closed, 0) == closed,
{
    lemma_blend_ends(open, closed);
    let c = 1024 - o;
    let lo = if open <= closed {
        open
    } else {
        closed
    };
    let hi = if open <= closed {
        closed
    } else {
        open
    };
    let x = open * o + closed * c;
    assert(1024 * lo <= x <= 1024 * hi) by (nonlinear_arith)
        requires
            lo <= open <= hi,
            lo <= closed <= hi,
            o >= 0,
            c >= 0,
            o + c == 1024,
            x == open * o + closed * c,
    ;
}

/// What one side controls counts against the other: with the sides swapped the score turns round.
pub proof fn law_mobility_turns_with_the_sides(us: SideMetrics, them: SideMetrics, o: int, phase: int)
    requires
        0 <= phase <= 24,
    ensures
        mobility_score(them, us, o, phase) == -mobility_score(us, them, o, phase),
        mobility_score(us, us, o, phase) == 0,
{
    lemma_weighed_turns(us, them, MG_MOBILITY_OPEN@, MG_MOBILITY_CLOSED@, o);
    lemma_weighed_turns(us, them, EG_MOBILITY_OPEN@, EG_MOBILITY_CLOSED@, o);
    lemma_weighed_turns(us, us, MG_MOBILITY_OPEN@, MG_MOBILITY_CLOSED@, o);
    lemma_weighed_turns(us, us, EG_MOBILITY_OPEN@, EG_MOBILITY_CLOSED@, o);
    law_the_phase_leads_from_middlegame_to_endgame(
        weighed(us, them, MG_MOBILITY_OPEN@, MG_MOBILITY_CLOSED@, o),
        weighed(us, them, EG_MOBILITY_OPEN@, EG_MOBILITY_CLOSED@, o),
        phase,
    );
    assert(0 * phase + 0 * (24 - phase) == 0);
}

proof fn lemma_weighed_turns(us: SideMetrics, them: SideMetrics, open: Seq<i32>, closed: Seq<i32>, o: int)
    ensures
        weighed(them, us, open, closed, o) == -weighed(us, them, open, closed, o),
{
    let w0 = blend(open[0] as int, closed[0] as int, o);
    let w1 = blend(open[1] as int, closed[1] as int, o);
    let w2 = blend(open[2] as int, closed[2] as int, o);
    let w3 = blend(open[3] as int, closed[3] as int, o);
    lemma_turned(us.mobility as int, them.mobility as int, w0);
    lemma_turned(us.shadow_mobility as int, them.shadow_mobility as int, w1);
    lemma_turned(us.threats as int, them.threats as int, w2);
    lemma_turned(us.shadow_threats as int, them.shadow_threats as int, w3);
}

proof fn lemma_turned(x: int, y: int, w: int)
    ensures
        (y - x) * w == -((x - y) * w),
{
    assert((y - x) * w == -((x - y) * w)) by (nonlinear_arith);
}

/// A pawn before the king covers it, each worth twenty-three; each square from which a rook or a
/// bishop would see it uncovers it, by ten and nine.
pub proof fn law_pawns_cover_and_open_lines_uncover(a: SafetyMetrics, b: SafetyMetrics)
    ensures
        a.covered() - b.covered() == 23 * (a.shield - b.shield) - 10 * (a.ortho_exposure - b.ortho_exposure) - 9 * (
        a.diag_exposure - b.diag_exposure),
        a.shield == 0 && a.ortho_exposure == 0 && a.diag_exposure == 0 ==> a.covered() == 0,
{
}

/// A king is only pressed where men bear on its surroundings and squares there are weak. Every
/// ten weak squares press with the whole weight of the attackers, and neither another attacker
/// nor another weak square takes pressure off.
pub proof fn law_attackers_and_weak_squares_press(a: SafetyMetrics, b: SafetyMetrics, k: int)
    requires
        a.small(),
        b.small(),
        a.attackers <= b.attackers,
        a.weak <= b.weak,
    ensures
        0 <= a.pressed() <= b.pressed(),
        a.attackers == 0 || a.weak == 0 ==> a.pressed() == 0,
        a.weak == 10 * k && a.attackers == 1 ==> a.pressed() == 185 * k,
        a.weak == 10 * k && a.attackers == 2 ==> a.pressed() == 288 * k,
        a.weak == 10 * k && a.attackers == 3 ==> a.pressed() == 476 * k,
        a.weak == 10 * k && a.attackers == 4 ==> a.pressed() == 562 * k,
        a.weak == 10 * k && a.attackers == 5 ==> a.pressed() == 581 * k,
{
    let x = ATTACKER[a.attackers as int] as int;
    let y = ATTACKER[b.attackers as int] as int;
    let v = a.weak as int;
    let w = b.weak as int;
    assert(0 <= x <= y);
    assert(0 <= x * v <= y * w) by (nonlinear_arith)
        requires
            0 <= x <= y,
            0 <= v <= w,
    ;
    assert(v == 0 ==> x * v == 0) by (nonlinear_arith);
    assert(x == 0 ==> x * v == 0) by (nonlinear_arith);
    assert(x == 185 ==> x * v == 185 * v) by (nonlinear_arith);
    assert(x == 288 ==> x * v == 288 * v) by (nonlinear_arith);
    assert(x == 476 ==> x * v == 476 * v) by (nonlinear_arith);
    assert(x == 562 ==> x * v == 562 * v) by (nonlinear_arith);
    assert(x == 581 ==> x * v == 581 * v) by (nonlinear_arith);
}

/// An empty board is fully open, a lone pawn takes twenty off, and two pawns locked head to head,
/// the white one south of the black one, take eighty-two more than two that have passed each
/// other on the file.
pub proof fn law_locked_pawns_close_the_board(b: Seq<Cell>, x: int, y: int)
    requires
        0 <= x < 64,
        0 <= y < 64,
        x != y,
        forall|s: int| #[trigger] pawn_on(b, Color::White, s) <==> s == x,
        forall|s: int| #[trigger] pawn_on(b, Color::Black, s) <==> s == y,
    ensures
        y == x + 8 ==> board_openness(b) == 1024 - 82 - 40,
        y != x + 8 ==> board_openness(b) == 1024 - 40,
{
    let ram = |s: int| pawn_on(b, Color::White, s - 8) && pawn_on(b, Color::Black, s);
    let any = |s: int| pawn_on(b, Color::White, s) || pawn_on(b, Color::Black, s);
    assert forall|s: int| #[trigger] any(s) <==> s == x || s == y by {}
    if x < y {
        census::lemma_tally_two(any, x, y, 64);
    } else {
        census::lemma_tally_two(any, y, x, 64);
    }
    assert forall|s: int| #[trigger] ram(s) <==> s == y && y == x + 8 by {}
    if y == x + 8 {
        census::lemma_tally_one(ram, y, 64);
    } else {
        census::lemma_tally_none(ram, 64);
    }
}

/// A board without pawns is fully open, and no board is more than that or less than closed.
pub proof fn law_a_board_without_pawns_is_open(b: Seq<Cell>)
    ensures
        0 <= board_openness(b) <= 1024,
        (forall|c: Color, s: int| !#[trigger] pawn_on(b, c, s)) ==> board_openness(b) == 1024,
{
    let ram = |s: int| pawn_on(b, Color::White, s - 8) && pawn_on(b, Color::Black, s);
    let any = |s: int| pawn_on(b, Color::White, s) || pawn_on(b, Color::Black, s);
    if forall|c: Color, s: int| !#[trigger] pawn_on(b, c, s) {
        census::lemma_tally_none(ram, 64);
        census::lemma_tally_none(any, 64);
    }
}

/// A king whose surroundings no enemy man bears on has no attackers, no weak squares and nothing
/// to fear; one that an enemy man other than a king bears near has an attacker.
pub proof fn law_a_distant_enemy_does_not_press(p: Position, c: Color, m: SafetyMetrics)
    requires
        m.of(p, c),
        forall|a: int, t: int|
            rules::owned(p.board(), a, c.other()) && geom::king_step(position::king_of(p.board(), c), t) && geom::on_board(t)
                ==> !#[trigger] spatial::reach(p.board(), a, t),
    ensures
        m.attackers == 0,
        m.weak == 0,
        m.pressed() == 0,
{
    let b = p.board();
    let men = |a: int| assails(b, c, a);
    let soft = |t: int| zone(b, c, t) && spatial::borne(b, c.other(), t) && !spatial::borne(b, c, t);
    assert forall|a: int| 0 <= a < 64 implies !#[trigger] men(a) by {
        if assails(b, c, a) {
            let t = choose|t: int| geom::on_board(t) && #[trigger] zone(b, c, t) && spatial::reach(b, a, t);
            assert(!spatial::reach(b, a, t));
        }
    }
    assert forall|t: int| 0 <= t < 64 implies !#[trigger] soft(t) by {
        if soft(t) {
            let a = choose|a: int| #[trigger] rules::owned(b, a, c.other()) && spatial::reach(b, a, t);
            assert(!spatial::reach(b, a, t));
        }
    }
    census::lemma_tally_none(men, 64);
    census::lemma_tally_none(soft, 64);
    assert(ATTACKER[0] * 0 == 0);
}

/// The enemy men that a side bears on are counted once each, however many men bear on them, and
/// no others; and in the same way those that its sliders see past a man.
pub proof fn law_threats_count_enemy_men(p: Position, c: Color, m: SideMetrics, x: int)
    requires
        m.of(p, c),
        0 <= x < 64,
    ensures
        (forall|t: int| 0 <= t < 64 && #[trigger] rules::owned(p.board(), t, c.other()) ==> !spatial::borne(p.board(), c, t))
            ==> m.threats == 0,
        (forall|t: int|
            0 <= t < 64 && #[trigger] rules::owned(p.board(), t, c.other()) ==> (spatial::borne(p.board(), c, t) <==> t == x))
            && rules::owned(p.board(), x, c.other()) ==> m.threats == 1,
        (forall|t: int| 0 <= t < 64 && #[trigger] rules::owned(p.board(), t, c.other()) ==> !shade(p, c, t)) ==> m.shadow_threats
            == 0,
        (forall|t: int| 0 <= t < 64 && #[trigger] rules::owned(p.board(), t, c.other()) ==> (shade(p, c, t) <==> t == x))
            && rules::owned(p.board(), x, c.other()) ==> m.shadow_threats == 1,
        (forall|t: int| 0 <= t < 64 ==> !#[trigger] shade(p, c, t)) ==> m.shadow_mobility == 0,
{
    let b = p.board();
    let f = |t: int| spatial::borne(b, c, t) && rules::owned(b, t, c.other());
    let g = |t: int| shade(p, c, t) && rules::owned(b, t, c.other());
    let h = |t: int| shade(p, c, t) && !spatial::pawn_borne(b, c.other(), t);
    if forall|t: int| 0 <= t < 64 ==> !#[trigger] f(t) {
        census::lemma_tally_none(f, 64);
    }
    if f(x) && forall|t: int| 0 <= t < 64 && t != x ==> !#[trigger] f(t) {
        census::lemma_tally_one(f, x, 64);
    }
    if forall|t: int| 0 <= t < 64 ==> !#[trigger] g(t) {
        census::lemma_tally_none(g, 64);
    }
    if g(x) && forall|t: int| 0 <= t < 64 && t != x ==> !#[trigger] g(t) {
        census::lemma_tally_one(g, x, 64);
    }
    if forall|t: int| 0 <= t < 64 ==> !#[trigger] h(t) {
        census::lemma_tally_none(h, 64);
    }
}

/// A side with a single man besides its king has as much mobility as that man has squares to
/// bear on that no enemy pawn attacks.
pub proof fn law_mobility_leaves_out_what_enemy_pawns_attack(p: Position, c: Color, m: SideMetrics, a: int)
    requires
        m.of(p, c),
        rules::owned(p.board(), a, c),
        forall|s: int| #[trigger] rules::owned(p.board(), s, c) ==> s == a,
    ensures
        m.mobility == census::tally(
            |t: int| spatial::reach(p.board(), a, t) && 0 <= t < 64 && !spatial::pawn_borne(p.board(), c.other(), t),
            64,
        ),
{
    let b = p.board();
    let area = choose|area: Bitboard| #[trigger]
        safe_area(b, c, area) && m.mobility == spatial::mobility_below(b, c, area, 64);
    spatial::law_a_man_alone_bears_on_its_squares(b, c, area, a, 64);
    let f = |t: int| spatial::reach(b, a, t) && area.has(t);
    let g = |t: int| spatial::reach(b, a, t) && 0 <= t < 64 && !spatial::pawn_borne(b, c.other(), t);
    assert forall|t: int| #[trigger] f(t) == g(t) by {}
    assert(f =~= g);
}

/// The pawns of a side that stand next to its king shield it, and no others do; an enemy's pawn
/// does not.
pub proof fn law_a_kings_own_pawns_shield_it(p: Position, c: Color, m: SafetyMetrics, x: int)
    requires
        m.of(p, c),
        0 <= x < 64,
    ensures
        (forall|t: int|
            0 <= t < 64 && #[trigger] p.board()[t] == rules::man(c, PieceType::Pawn) ==> !geom::king_step(
                position::king_of(p.board(), c),
                t,
            )) ==> m.shield == 0,
        p.board()[x] == rules::man(c, PieceType::Pawn) && geom::king_step(position::king_of(p.board(), c), x) && (forall|t: int|
            0 <= t < 64 && t != x && #[trigger] p.board()[t] == rules::man(c, PieceType::Pawn) ==> !geom::king_step(
                position::king_of(p.board(), c),
                t,
            )) ==> m.shield == 1,
        m.attackers <= 5,
{
    let b = p.board();
    let f = |t: int| zone(b, c, t) && b[t] == rules::man(c, PieceType::Pawn);
    if forall|t: int| 0 <= t < 64 ==> !#[trigger] f(t) {
        census::lemma_tally_none(f, 64);
    }
    if f(x) && forall|t: int| 0 <= t < 64 && t != x ==> !#[trigger] f(t) {
        census::lemma_tally_one(f, x, 64);
    }
}

/// A king is exposed by every square that a rook in its place would see along ranks and files, and
/// by every one that a bishop would see along diagonals.
pub proof fn law_open_lines_expose_a_king(p: Position, c: Color, m: SafetyMetrics)
    requires
        m.of(p, c),
    ensures
        (forall|t: int|
            0 <= t < 64 ==> !#[trigger] rules::reaches(p.occ, c, PieceType::Rook, position::king_of(p.board(), c), t))
            ==> m.ortho_exposure == 0,
        (forall|t: int|
            0 <= t < 64 ==> !#[trigger] rules::reaches(p.occ, c, PieceType::Bishop, position::king_of(p.board(), c), t))
            ==> m.diag_exposure == 0,
        m.ortho_exposure == census::tally(
            |t: int| 0 <= t < 64 && rules::reaches(p.occ, c, PieceType::Rook, position::king_of(p.board(), c), t),
            64,
        ),
        m.diag_exposure == census::tally(
            |t: int| 0 <= t < 64 && rules::reaches(p.occ, c, PieceType::Bishop, position::king_of(p.board(), c), t),
            64,
        ),
{
    let k = position::king_of(p.board(), c);
    let f = |t: int| geom::rook_sees(p.occ, k, t);
    let g = |t: int| geom::bishop_sees(p.occ, k, t);
    let f2 = |t: int| 0 <= t < 64 && rules::reaches(p.occ, c, PieceType::Rook, k, t);
    let g2 = |t: int| 0 <= t < 64 && rules::reaches(p.occ, c, PieceType::Bishop, k, t);
    assert forall|t: int| #[trigger] f(t) == f2(t) by {}
    assert forall|t: int| #[trigger] g(t) == g2(t) by {}
    assert(f =~= f2);
    assert(g =~= g2);
    if forall|t: int| 0 <= t < 64 ==> !#[trigger] rules::reaches(p.occ, c, PieceType::Rook, k, t) {
        census::lemma_tally_none(f2, 64);
    }
    if forall|t: int| 0 <= t < 64 ==> !#[trigger] rules::reaches(p.occ, c, PieceType::Bishop, k, t) {
        census::lemma_tally_none(g2, 64);
    }
}

/// White is measured first and Black against it.
pub proof fn law_white_is_us_and_black_is_them(p: Position, m: SpatialMetrics)
    requires
        m.of(p),
    ensures
        m.metrics_us.of(p, Color::White) && m.metrics_them.of(p, Color::Black),
        m.safety_us.of(p, Color::White) && m.safety_them.of(p, Color::Black),
{
}

/// A square next to a king is weak where the enemy bears on it and no man of its own side but the
/// king does.
pub proof fn law_squares_that_are_not_held_are_weak(p: Position, c: Color, m: SafetyMetrics, x: int)
    requires
        m.of(p, c),
        0 <= x < 64,
    ensures
        (forall|t: int|
            0 <= t < 64 && geom::king_step(position::king_of(p.board(), c), t) ==> #[trigger] spatial::borne(p.board(), c, t))
            ==> m.weak == 0,
        geom::king_step(position::king_of(p.board(), c), x) && spatial::borne(p.board(), c.other(), x) && (forall|t: int|
            0 <= t < 64 && geom::king_step(position::king_of(p.board(), c), t) ==> (#[trigger] spatial::borne(p.board(), c, t)
                <==> t != x)) ==> m.weak == 1,
{
    let b = p.board();
    let f = |t: int| zone(b, c, t) && spatial::borne(b, c.other(), t) && !spatial::borne(b, c, t);
    if forall|t: int| 0 <= t < 64 && geom::king_step(position::king_of(b, c), t) ==> #[trigger] spatial::borne(b, c, t) {
        assert forall|t: int| 0 <= t < 64 implies !#[trigger] f(t) by {
            if zone(b, c, t) {
                assert(spatial::borne(b, c, t));
            }
        }
        census::lemma_tally_none(f, 64);
    }
    if geom::king_step(position::king_of(b, c), x) && spatial::borne(b, c.other(), x) && (forall|t: int|
        0 <= t < 64 && geom::king_step(position::king_of(b, c), t) ==> (#[trigger] spatial::borne(b, c, t) <==> t != x)) {
        assert(!spatial::borne(b, c, x));
        assert(f(x));
        assert forall|t: int| 0 <= t < 64 && t != x implies !#[trigger] f(t) by {
            if zone(b, c, t) {
                assert(spatial::borne(b, c, t));
            }
        }
        census::lemma_tally_one(f, x, 64);
    }
}

} // verus!
