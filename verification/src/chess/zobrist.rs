//! Position keys: every man, castling state, en passant square and side has a word, and
//! a key is the exclusive or of the words that apply.

use vstd::prelude::*;

use crate::chess::geom;
use crate::chess::rules::Cell;
use crate::chess::types::{Color, PieceType, Square};

verus! {

/// Scrambles a small number into a word (the splitmix finalizer).
pub open spec fn word(i: u64) -> u64 {
    let a = i.wrapping_add(1).wrapping_mul(0x9e37_79b9_7f4a_7c15);
    let b = (a ^ (a >> 30)).wrapping_mul(0xbf58_476d_1ce4_e5b9);
    let c = (b ^ (b >> 27)).wrapping_mul(0x94d0_49bb_1331_11eb);
    c ^ (c >> 31)
}

/// Computes [`word`].
pub fn word_of(i: u64) -> (w: u64)
    ensures
        w == word(i),
{
    let a: u64 = i.wrapping_add(1).wrapping_mul(0x9e37_79b9_7f4a_7c15);
    let b: u64 = (a ^ (a >> 30)).wrapping_mul(0xbf58_476d_1ce4_e5b9);
    let c: u64 = (b ^ (b >> 27)).wrapping_mul(0x94d0_49bb_1331_11eb);
    c ^ (c >> 31)
}

/// Which men a key counts.
#[derive(Clone, Copy, Debug, PartialEq, Eq, Structural)]
pub enum KeyKind {
    All,
    Pawn,
    Minor,
    Major,
}

impl KeyKind {
    /// Whether the key counts men of kind `pt`.
    pub open spec fn counts(self, pt: PieceType) -> bool {
        match self {
            KeyKind::All => true,
            KeyKind::Pawn => pt == PieceType::Pawn,
            KeyKind::Minor => pt == PieceType::Knight || pt == PieceType::Bishop,
            KeyKind::Major => pt == PieceType::Rook || pt == PieceType::Queen,
        }
    }

    /// Whether the key counts men of kind `pt`.
    pub fn covers(self, pt: PieceType) -> (r: bool)
        ensures
            r == self.counts(pt),
    {
        match self {
            KeyKind::All => true,
            KeyKind::Pawn => pt == PieceType::Pawn,
            KeyKind::Minor => pt == PieceType::Knight || pt == PieceType::Bishop,
            KeyKind::Major => pt == PieceType::Rook || pt == PieceType::Queen,
        }
    }
}

/// The word of a man of side `c` and kind `pt` on `s`.
pub open spec fn man_word(c: Color, pt: PieceType, s: int) -> u64 {
    word(((c.index() * 7 + pt.index()) * 64 + s) as u64)
}

/// What the cell on `s` adds to a key.
pub open spec fn cell_word(k: KeyKind, cell: Cell, s: int) -> u64 {
    if cell is Some && k.counts(cell->0.kind) {
        man_word(cell->0.color, cell->0.kind, s)
    } else {
        0
    }
}

/// The key of the first `n` squares.
pub open spec fn key_below(k: KeyKind, b: Seq<Cell>, n: nat) -> u64
    decreases n,
{
    if n == 0 {
        0
    } else {
        key_below(k, b, (n - 1) as nat) ^ cell_word(k, b[n - 1], n - 1)
    }
}

/// The key of a placement.
pub open spec fn key(k: KeyKind, b: Seq<Cell>) -> u64 {
    key_below(k, b, 64)
}

/// The castling rights as a number below sixteen.
pub open spec fn rights_code(rights: Seq<bool>) -> int {
    (if rights[0] {
        1int
    } else {
        0
    }) + (if rights[1] {
        2int
    } else {
        0
    }) + (if rights[2] {
        4int
    } else {
        0
    }) + (if rights[3] {
        8int
    } else {
        0
    })
}

/// What castling rights, en passant square and side to move add to the full key.
pub open spec fn state_word(rights: Seq<bool>, ep: Option<Square>, stm: Color) -> u64 {
    word((1024 + rights_code(rights)) as u64) ^ (match ep {
        Some(t) => word((1040 + geom::file(t.at())) as u64),
        None => 0,
    }) ^ (match stm {
        Color::White => 0,
        Color::Black => word(1048),
    })
}

/// The word of a man of side `c` and kind `pt` on `sq`.
pub fn man_word_of(c: Color, pt: PieceType, sq: Square) -> (w: u64)
    requires
        sq.ok(),
    ensures
        w == man_word(c, pt, sq.at()),
{
    let i: usize = (c.idx() * 7 + pt.idx()) * 64 + sq.0 as usize;
    word_of(i as u64)
}

/// Computes [`state_word`].
pub fn state_word_of(rights: &[bool; 4], ep: Option<Square>, stm: Color) -> (w: u64)
    ensures
        w == state_word(rights@, ep, stm),
{
    let mut code: u64 = 0;
    if rights[0] {
        code = code + 1;
    }
    if rights[1] {
        code = code + 2;
    }
    if rights[2] {
        code = code + 4;
    }
    if rights[3] {
        code = code + 8;
    }
    let r: u64 = word_of(1024 + code);
    let e: u64 = match ep {
        Some(t) => word_of(1040 + t.file() as u64),
        None => 0,
    };
    let s: u64 = match stm {
        Color::White => 0,
        Color::Black => word_of(1048),
    };
    r ^ e ^ s
}

/// Exclusive or cancels.
pub proof fn lemma_swap(f: u64, a: u64, b: u64)
    by (bit_vector)
    ensures
        (f ^ a) ^ a ^ b == f ^ b,
        (f ^ a) ^ b == (f ^ b) ^ a,
        f ^ 0 == f,
        0u64 ^ f == f,
        f ^ f == 0,
{
}

/// Changing one cell changes the key by the words of the old and the new cell.
pub proof fn lemma_key_update(k: KeyKind, b: Seq<Cell>, s: int, x: Cell, n: nat)
    requires
        b.len() == 64,
        0 <= s < 64,
        n <= 64,
    ensures
        s < n ==> key_below(k, b.update(s, x), n) == key_below(k, b, n) ^ cell_word(k, b[s], s) ^ cell_word(k, x, s),
        s >= n ==> key_below(k, b.update(s, x), n) == key_below(k, b, n),
    decreases n,
{
    if n > 0 {
        let m = (n - 1) as nat;
        lemma_key_update(k, b, s, x, m);
        let f = key_below(k, b, m);
        let o = cell_word(k, b[s], s);
        let w = cell_word(k, x, s);
        let z = cell_word(k, b[m as int], m as int);
        if s < m {
            assert(((f ^ o) ^ w) ^ z == ((f ^ z) ^ o) ^ w) by (bit_vector);
        } else if s == m {
            lemma_swap(f, o, w);
        }
    }
}

/// The key of a placement, summed square by square.
pub fn key_of(k: KeyKind, cells: &[Cell; 64]) -> (w: u64)
    ensures
        w == key(k, cells@),
{
    let mut acc: u64 = 0;
    let mut s: usize = 0;
    while s < 64
        invariant
            s <= 64,
            acc == key_below(k, cells@, s as nat),
        decreases 64 - s,
    {
        let w: u64 = match cells[s] {
            Some(m) => if k.covers(m.kind) {
                man_word_of(m.color, m.kind, Square(s as u8))
            } else {
                0
            },
            None => 0,
        };
        acc = acc ^ w;
        s = s + 1;
    }
    acc
}

/// Different men, and the same man on different squares, are scrambled from different numbers, and
/// so are the rights, the files and the turn.
pub proof fn law_everything_is_scrambled_from_its_own_number(c: Color, pt: PieceType, s: int, c2: Color, pt2: PieceType, s2: int)
    requires
        geom::on_board(s),
        geom::on_board(s2),
        c != c2 || pt != pt2 || s != s2,
    ensures
        exists|i: u64, j: u64| i != j && i < 1024 && j < 1024 && man_word(c, pt, s) == #[trigger] word(i) && man_word(c2, pt2, s2)
            == #[trigger] word(j),
{
    let i = ((c.index() * 7 + pt.index()) * 64 + s) as u64;
    let j = ((c2.index() * 7 + pt2.index()) * 64 + s2) as u64;
    assert(i != j);
    assert(man_word(c, pt, s) == word(i) && man_word(c2, pt2, s2) == word(j));
}

/// The rights have a code of their own each.
pub proof fn law_rights_are_told_apart(r: Seq<bool>, q: Seq<bool>)
    requires
        r.len() == 4 && q.len() == 4,
    ensures
        0 <= rights_code(r) < 16,
        rights_code(r) == rights_code(q) <==> r == q,
{
    if rights_code(r) == rights_code(q) {
        assert(r =~= q);
    }
}

/// The key of a board counts each man once: a key of a kind does not see men of other kinds, the
/// full key sees all of them, and pawns, minors and majors are seen by a key each.
pub proof fn law_keys_see_their_own_men(pt: PieceType)
    ensures
        KeyKind::All.counts(pt),
        KeyKind::Pawn.counts(pt) ==> !KeyKind::Minor.counts(pt) && !KeyKind::Major.counts(pt),
        KeyKind::Minor.counts(pt) ==> !KeyKind::Major.counts(pt),
        pt != PieceType::King && pt != PieceType::Empty ==> KeyKind::Pawn.counts(pt) || KeyKind::Minor.counts(pt)
            || KeyKind::Major.counts(pt),
        KeyKind::Pawn.counts(PieceType::Pawn) && KeyKind::Minor.counts(PieceType::Knight) && KeyKind::Minor.counts(
            PieceType::Bishop,
        ) && KeyKind::Major.counts(PieceType::Rook) && KeyKind::Major.counts(PieceType::Queen),
        !KeyKind::Pawn.counts(PieceType::King) && !KeyKind::Minor.counts(PieceType::King) && !KeyKind::Major.counts(
            PieceType::King,
        ),
{
}

/// The turn, an en passant square and the rights each add a word of their own to the key.
pub proof fn law_the_turn_adds_a_word(rights: Seq<bool>, ep: Square)
    ensures
        state_word(rights, None, Color::Black) == state_word(rights, None, Color::White) ^ word(1048),
        state_word(rights, Some(ep), Color::White) == state_word(rights, None, Color::White) ^ word(
            (1040 + geom::file(ep.at())) as u64,
        ),
{
    let a = word((1024 + rights_code(rights)) as u64);
    let b = word((1040 + geom::file(ep.at())) as u64);
    let t = word(1048);
    assert(a ^ 0u64 ^ t == (a ^ 0u64 ^ 0u64) ^ t) by (bit_vector);
    assert(a ^ b ^ 0u64 == (a ^ 0u64 ^ 0u64) ^ b) by (bit_vector);
}

} // verus!
