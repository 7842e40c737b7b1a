//! Evaluation weights.
//!
//! A piece-square table covers files a to d, mirrored onto e to h, from the eighth rank
//! down to the first.

use vstd::prelude::*;

verus! {

pub const MG_PAWN: [i16; 32] = [
    0, 0, 0, 0,
    20, 51, 33, 46,
    14, 21, 74, 55,
    -17, -8, 3, 17,
    -29, -26, -18, 1,
    -36, -31, -30, -22,
    -33, -25, -23, -28,
    0, 0, 0, 0,
];

pub const EG_PAWN: [i16; 32] = [
    0, 0, 0, 0,
    98, 56, 87, 61,
    20, 19, -29, -55,
    -2, -13, -31, -46,
    -14, -12, -21, -27,
    -18, -18, -14, -13,
    -11, -12, -6, -6,
    0, 0, 0, 0,
];

pub const MG_KNIGHT: [i16; 32] = [
    -158, -104, -88, -41,
    11, 19, 68, 41,
    24, 49, 75, 97,
    27, 16, 66, 58,
    -4, 34, 24, 34,
    -30, 7, 9, 23,
    -28, -38, -12, 2,
    -86, -47, -31, -22,
];

pub const EG_KNIGHT: [i16; 32] = [
    -124, -38, -14, -11,
    -32, -1, -5, 2,
    -17, 0, 14, 15,
    -3, 22, 32, 45,
    8, 16, 36, 49,
    -5, 11, 19, 38,
    -6, 0, 13, 15,
    -28, -36, -11, 7,
];

pub const MG_BISHOP: [i16; 32] = [
    -52, -73, -84, -138,
    -2, 19, 10, 10,
    23, 29, 32, 39,
    -4, 8, 31, 44,
    3, 1, 5, 29,
    1, 18, 14, 9,
    2, 16, 24, 1,
    -8, 16, -14, -9,
];

pub const EG_BISHOP: [i16; 32] = [
    -1, 13, 4, 23,
    -13, 6, 3, -1,
    1, 2, 11, 1,
    -2, 11, 10, 18,
    -14, 9, 15, 16,
    -9, 1, 13, 16,
    -24, -21, -21, 1,
    -37, -6, -17, -2,
];

pub const MG_ROOK: [i16; 32] = [
    -15, -56, -51, -63,
    9, 2, 24, 27,
    14, 53, 42, 42,
    5, 19, 21, 18,
    -20, -3, -11, 0,
    -15, 11, -3, -3,
    -33, -7, -3, 0,
    -14, -2, -8, 13,
];

pub const EG_ROOK: [i16; 32] = [
    14, 29, 34, 28,
    4, 14, 12, 3,
    1, -6, -8, -12,
    5, -2, 1, -6,
    6, 2, 3, 1,
    -8, -22, -13, -7,
    -3, -12, -12, -13,
    -2, -9, -5, -20,
];

pub const MG_QUEEN: [i16; 32] = [
    -20, -14, -32, -30,
    38, -23, -12, -43,
    38, 42, 8, -1,
    21, -4, -1, -22,
    1, 5, -14, -12,
    12, 7, 1, -7,
    24, 10, 15, 12,
    -13, -2, 2, 13,
];

pub const EG_QUEEN: [i16; 32] = [
    -74, -61, -11, -1,
    -25, 17, 33, 66,
    -6, -17, 41, 51,
    10, 51, 32, 66,
    21, 30, 40, 48,
    -26, 8, 20, 22,
    -65, -53, -39, -11,
    -43, -48, -54, -28,
];

pub const MG_KING: [i16; 32] = [
    35, 4, 17, -26,
    -70, 25, -6, 51,
    -67, 46, 28, 15,
    -101, -19, -32, -81,
    -118, -38, -36, -82,
    -39, 23, -8, -10,
    66, 67, 35, 15,
    72, 87, 63, 72,
];

pub const EG_KING: [i16; 32] = [
    -125, -37, -26, -13,
    4, 43, 49, 29,
    9, 47, 59, 63,
    1, 39, 62, 74,
    -13, 18, 43, 66,
    -31, -10, 19, 32,
    -62, -33, -7, 6,
    -121, -80, -49, -56,
];

/// Middlegame worth of a man, pawn first.
pub const MG_MATERIAL: [i16; 6] = [92, 360, 371, 458, 728, 0];

/// Endgame worth of a man, pawn first.
pub const EG_MATERIAL: [i16; 6] = [163, 502, 534, 947, 1860, 0];

/// What a man adds to the game phase, pawn first.
pub const PHASE: [i16; 6] = [0, 1, 1, 2, 4, 0];

/// Per unit of mobility, battery, threats and threats through a man, on an open board.
pub const MG_MOBILITY_OPEN: [i32; 4] = [4, -5, 4, 4];

pub const EG_MOBILITY_OPEN: [i32; 4] = [-5, -8, 9, -5];

/// The same on a closed board.
pub const MG_MOBILITY_CLOSED: [i32; 4] = [1, 9, -16, -6];

pub const EG_MOBILITY_CLOSED: [i32; 4] = [27, 14, 45, -28];

/// Pawn shield, exposure along ranks and files, exposure along diagonals.
pub const KING_SAFETY: [i32; 3] = [23, 10, 9];

/// By number of men that bear on the king's surroundings, five and more counting alike.
pub const ATTACKER: [i32; 6] = [0, 185, 288, 476, 562, 581];

/// Lines that reach the enemy king's surroundings through a man.
pub const XRAY: [i32; 1] = [10];

/// The curvature of king danger.
pub const KING_DANGER: [i32; 1] = [0];

/// Middlegame and endgame weights of the single terms.
pub const TEMPO: [i32; 2] = [32, 37];

pub const BISHOP_PAIR: [i32; 2] = [39, 74];

pub const ROOK_OPEN: [i32; 2] = [40, 0];

pub const MINOR_BEHIND_PAWN: [i32; 2] = [12, 32];

pub const PIECE_MOBILITY: [i32; 2] = [5, 6];

pub const DOUBLED_PAWN: [i32; 2] = [1, -45];

pub const ISOLATED_PAWN: [i32; 2] = [-9, -12];

pub const BACKWARD_PAWN: [i32; 2] = [-7, -16];

/// By rank as the owner sees it, from the second to the seventh.
pub const PHALANX_MG: [i32; 6] = [8, 14, 28, 62, 105, -155];

pub const PHALANX_EG: [i32; 6] = [-7, 2, 23, 88, 211, 343];

pub const DEFENDED_PAWN_MG: [i32; 6] = [0, 33, 22, 20, 32, 156];

pub const DEFENDED_PAWN_EG: [i32; 6] = [0, 17, 14, 29, 62, 17];

pub const PASSED_PAWN_MG: [i32; 6] = [-6, -20, -22, 1, -3, 52];

pub const PASSED_PAWN_EG: [i32; 6] = [-56, -33, 14, 67, 161, 154];

/// By the distance of the enemy king from a passed pawn, six and more counting alike.
pub const ENEMY_KING_DIST_MG: [i32; 6] = [-111, 20, 4, 1, -1, -6];

pub const ENEMY_KING_DIST_EG: [i32; 6] = [-40, 11, 51, 64, 75, 83];

/// The kinds of weights, in the order of the weight vector.
#[derive(Clone, Copy, Debug, PartialEq, Eq, Structural)]
pub enum Group {
    Psqt,
    Simple,
    Simd,
    Weight,
}

/// A named run of slots in the weight vector.
#[derive(Clone, Copy, Debug)]
pub struct Block {
    pub name: &'static str,
    pub group: Group,
    /// Which run of its group it stands in.
    pub section: u8,
    pub offset: usize,
    pub len: usize,
}

/// The number of blocks.
pub const BLOCK_COUNT: usize = 25;

/// The blocks in slot order.
pub const BLOCK_NAMES: [&'static str; 25] = [
    "psqt", "material", "mobility_open", "mobility_closed", "phase", "king_safety", "attacker", "xray", "king_danger",
    "tempo", "bishop_pair", "rook_open", "minor_behind_pawn", "piece_mobility", "doubled_pawn", "isolated_pawn",
    "backward_pawn", "phalanx_mg", "phalanx_eg", "defended_pawn_mg", "defended_pawn_eg", "passed_pawn_mg",
    "passed_pawn_eg", "enemy_king_dist_mg", "enemy_king_dist_eg",
];

/// How many slots each takes: a table square and a tapered weight take one per phase.
pub const BLOCK_LENS: [usize; 25] = [
    384, 12, 8, 8, 6, 3, 6, 1, 1, 2, 2, 2, 2, 2, 2, 2, 2, 6, 6, 6, 6, 6, 6, 6, 6,
];

/// The group of block `i`.
pub open spec fn group_of(i: int) -> Group {
    if i < 1 {
        Group::Psqt
    } else if i < 2 {
        Group::Simple
    } else if i < 4 {
        Group::Simd
    } else {
        Group::Weight
    }
}

/// The section of block `i` within its group.
pub open spec fn section_of(i: int) -> int {
    if i < 5 {
        0
    } else if i < 9 {
        1
    } else if i < 14 {
        2
    } else {
        3
    }
}

/// The slots of the first `n` blocks.
pub open spec fn slots_below(n: nat) -> int
    decreases n,
{
    if n == 0 {
        0
    } else {
        slots_below((n - 1) as nat) + BLOCK_LENS[n - 1]
    }
}

/// Every block of weights in slot order, each right behind the one before.
pub fn blocks() -> (v: Vec<Block>)
    ensures
        v@.len() == BLOCK_COUNT,
        forall|i: int|
            0 <= i < BLOCK_COUNT ==> {
                &&& (#[trigger] v@[i]).name == BLOCK_NAMES[i]
                &&& v@[i].group == group_of(i)
                &&& v@[i].section == section_of(i)
                &&& v@[i].offset == slots_below(i as nat)
                &&& v@[i].len == BLOCK_LENS[i]
            },
{
    let mut v: Vec<Block> = Vec::new();
    let mut offset: usize = 0;
    while v.len() < BLOCK_COUNT
        invariant
            v@.len() <= BLOCK_COUNT,
            offset == slots_below(v@.len()),
            offset <= 384 * v@.len(),
            forall|i: int|
                0 <= i < v@.len() ==> {
                    &&& (#[trigger] v@[i]).name == BLOCK_NAMES[i]
                    &&& v@[i].group == group_of(i)
                    &&& v@[i].section == section_of(i)
                    &&& v@[i].offset == slots_below(i as nat)
                    &&& v@[i].len == BLOCK_LENS[i]
                },
        decreases BLOCK_COUNT - v@.len(),
    {
        let i: usize = v.len();
        let group = if i < 1 {
            Group::Psqt
        } else if i < 2 {
            Group::Simple
        } else if i < 4 {
            Group::Simd
        } else {
            Group::Weight
        };
        let section: u8 = if i < 5 {
            0
        } else if i < 9 {
            1
        } else if i < 14 {
            2
        } else {
            3
        };
        let len: usize = BLOCK_LENS[i];
        proof {
            lemma_block_len(i as int);
        }
        v.push(Block { name: BLOCK_NAMES[i], group, section, offset, len });
        offset = offset + len;
    }
    v
}

proof fn lemma_block_len(i: int)
    requires
        0 <= i < BLOCK_COUNT,
    ensures
        1 <= BLOCK_LENS[i] <= 384,
{
}

/// The blocks tile the weight vector: whatever slot lies below its end lies in exactly one
/// block.
pub proof fn law_blocks_tile_the_vector(slot: int, n: nat)
    requires
        0 <= slot < slots_below(n),
        n <= BLOCK_COUNT,
    ensures
        exists|i: int| 0 <= i < n && #[trigger] covers(i, slot),
        forall|i: int, j: int| 0 <= i < n && 0 <= j < n && #[trigger] covers(i, slot) && #[trigger] covers(j, slot) ==> i == j,
    decreases n,
{
    lemma_block_len(n - 1);
    if slot >= slots_below((n - 1) as nat) {
        assert(covers(n - 1, slot));
    } else {
        law_blocks_tile_the_vector(slot, (n - 1) as nat);
        let i = choose|i: int| 0 <= i < n - 1 && #[trigger] covers(i, slot);
        assert(covers(i, slot));
    }
    assert forall|i: int, j: int|
        0 <= i < n && 0 <= j < n && #[trigger] covers(i, slot) && #[trigger] covers(j, slot) implies i == j by {
        if i < j {
            lemma_slots_grow((i + 1) as nat, j as nat);
        }
        if j < i {
            lemma_slots_grow((j + 1) as nat, i as nat);
        }
    }
}

/// Block `i` holds slot `s`.
pub open spec fn covers(i: int, s: int) -> bool {
    slots_below(i as nat) <= s < slots_below((i + 1) as nat)
}

proof fn lemma_slots_grow(m: nat, n: nat)
    requires
        m <= n <= BLOCK_COUNT,
    ensures
        slots_below(m) <= slots_below(n),
    decreases n,
{
    if m < n {
        lemma_block_len(n - 1);
        lemma_slots_grow(m, (n - 1) as nat);
    }
}

} // verus!
