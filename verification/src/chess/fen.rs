//! Reading positions from Forsyth-Edwards notation.

use vstd::prelude::*;

use crate::chess::bitboard::{self, Bitboard};
use crate::chess::geom;
use crate::chess::position::{self, Position};
use crate::chess::psq::Accumulator;
use crate::chess::rules::{self, Cell, Man};
use crate::chess::types::{Color, PieceType, Square};
use crate::chess::zobrist::{self, KeyKind};
use crate::text;

verus! {

/// The initial position.
pub const STARTPOS: &'static str = "rnbqkbnr/pppppppp/8/8/8/8/PPPPPPPP/RNBQKBNR w KQkq - 0 1";

/// Why a text is no position.
#[derive(Clone, Copy, Debug, PartialEq, Eq, Structural)]
pub enum FenError {
    /// Fewer than four fields, or more than six.
    Fields,
    /// The first field does not fill the board.
    Placement,
    /// The second field names no side.
    Side,
    /// One side has no king, or several.
    Kings,
    /// A pawn stands on the first or last rank.
    Pawns,
    /// The third field grants a castling that king and rook cannot have.
    Castling,
    /// The fourth field names no square.
    EnPassant,
    /// A move counter is no number.
    Counter,
    /// The side that has just moved is in check.
    Check,
}

/// The man a letter stands for.
pub open spec fn man_of(c: char) -> Cell {
    if c == 'P' {
        rules::man(Color::White, PieceType::Pawn)
    } else if c == 'N' {
        rules::man(Color::White, PieceType::Knight)
    } else if c == 'B' {
        rules::man(Color::White, PieceType::Bishop)
    } else if c == 'R' {
        rules::man(Color::White, PieceType::Rook)
    } else if c == 'Q' {
        rules::man(Color::White, PieceType::Queen)
    } else if c == 'K' {
        rules::man(Color::White, PieceType::King)
    } else if c == 'p' {
        rules::man(Color::Black, PieceType::Pawn)
    } else if c == 'n' {
        rules::man(Color::Black, PieceType::Knight)
    } else if c == 'b' {
        rules::man(Color::Black, PieceType::Bishop)
    } else if c == 'r' {
        rules::man(Color::Black, PieceType::Rook)
    } else if c == 'q' {
        rules::man(Color::Black, PieceType::Queen)
    } else if c == 'k' {
        rules::man(Color::Black, PieceType::King)
    } else {
        None
    }
}

/// Reads a letter.
fn man_from(c: char) -> (m: Cell)
    ensures
        m == man_of(c),
{
    let w = Color::White;
    let b = Color::Black;
    match c {
        'P' => Some(Man { color: w, kind: PieceType::Pawn }),
        'N' => Some(Man { color: w, kind: PieceType::Knight }),
        'B' => Some(Man { color: w, kind: PieceType::Bishop }),
        'R' => Some(Man { color: w, kind: PieceType::Rook }),
        'Q' => Some(Man { color: w, kind: PieceType::Queen }),
        'K' => Some(Man { color: w, kind: PieceType::King }),
        'p' => Some(Man { color: b, kind: PieceType::Pawn }),
        'n' => Some(Man { color: b, kind: PieceType::Knight }),
        'b' => Some(Man { color: b, kind: PieceType::Bishop }),
        'r' => Some(Man { color: b, kind: PieceType::Rook }),
        'q' => Some(Man { color: b, kind: PieceType::Queen }),
        'k' => Some(Man { color: b, kind: PieceType::King }),
        _ => None,
    }
}

/// The board that the characters of `f` from place `i` on complete, the next square being
/// on `rank` and `file`.
pub open spec fn scan(f: Seq<char>, i: int, rank: int, file: int, b: Seq<Cell>) -> Option<Seq<Cell>>
    decreases f.len() - i,
{
    if i < 0 || i >= f.len() {
        if rank == 0 && file == 8 {
            Some(b)
        } else {
            None
        }
    } else if f[i] == '/' {
        if file == 8 && rank > 0 {
            scan(f, i + 1, rank - 1, 0, b)
        } else {
            None
        }
    } else if '1' <= f[i] && f[i] <= '8' {
        if file + (f[i] as int - '0' as int) <= 8 {
            scan(f, i + 1, rank, file + (f[i] as int - '0' as int), b)
        } else {
            None
        }
    } else if man_of(f[i]) is Some && file < 8 {
        scan(f, i + 1, rank, file + 1, b.update(rank * 8 + file, man_of(f[i])))
    } else {
        None
    }
}

/// The empty board.
pub open spec fn bare() -> Seq<Cell> {
    Seq::new(64, |s: int| None)
}

/// The board a placement field describes.
pub open spec fn board_of(f: Seq<char>) -> Option<Seq<Cell>> {
    scan(f, 0, 7, 0, bare())
}

/// Reads a placement field.
fn read_board(f: &Vec<char>) -> (r: Option<[Cell; 64]>)
    ensures
        match r {
            Some(cells) => board_of(f@) == Some(cells@) && rules::placement(cells@),
            None => board_of(f@) is None,
        },
{
    let mut cells: [Cell; 64] = [None; 64];
    let mut rank: u8 = 7;
    let mut file: u8 = 0;
    let mut i: usize = 0;
    assert(cells@ =~= bare());
    while i < f.len()
        invariant
            i <= f@.len(),
            rank <= 7,
            file <= 8,
            rules::placement(cells@),
            scan(f@, i as int, rank as int, file as int, cells@) == board_of(f@),
        decreases f@.len() - i,
    {
        let c = f[i];
        if c == '/' {
            if file != 8 || rank == 0 {
                return None;
            }
            rank = rank - 1;
            file = 0;
        } else if '1' <= c && c <= '8' {
            let d: u8 = (c as u32 - '0' as u32) as u8;
            if file + d > 8 {
                return None;
            }
            file = file + d;
        } else {
            let m = man_from(c);
            if m.is_none() || file >= 8 {
                return None;
            }
            let ghost b0 = cells@;
            cells[(rank * 8 + file) as usize] = m;
            assert(cells@ == b0.update(rank * 8 + file, m));
            file = file + 1;
        }
        i = i + 1;
    }
    if rank == 0 && file == 8 {
        Some(cells)
    } else {
        None
    }
}

/// The first rook of side `c` met from `s` in steps of `d` before the king on `k`.
pub open spec fn outer_rook(b: Seq<Cell>, c: Color, k: int, s: int, d: int, n: nat) -> Option<int>
    decreases n,
{
    if n == 0 || s == k {
        None
    } else if b[s] == rules::man(c, PieceType::Rook) {
        Some(s)
    } else {
        outer_rook(b, c, k, s + d, d, (n - 1) as nat)
    }
}

/// The rook that a castling letter names, for the side with the king on `k`.
pub open spec fn rook_named(b: Seq<Cell>, k: int, ch: char) -> Option<int> {
    if ch == 'K' {
        outer_rook(b, Color::White, k, 7, -1, 8)
    } else if ch == 'Q' {
        outer_rook(b, Color::White, k, 0, 1, 8)
    } else if ch == 'k' {
        outer_rook(b, Color::Black, k, 63, -1, 8)
    } else if ch == 'q' {
        outer_rook(b, Color::Black, k, 56, 1, 8)
    } else if 'A' <= ch && ch <= 'H' {
        Some(ch as int - 'A' as int)
    } else if 'a' <= ch && ch <= 'h' {
        Some(56 + (ch as int - 'a' as int))
    } else {
        None
    }
}

/// The side a castling letter speaks of.
pub open spec fn side_named(ch: char) -> Color {
    if 'A' <= ch && ch <= 'Z' {
        Color::White
    } else {
        Color::Black
    }
}

/// What the castling letters read so far grant.
#[derive(Clone, Copy)]
pub struct Grants {
    pub rights: [bool; 4],
    pub rooks: [Square; 4],
    pub frc: bool,
}

/// The castling letter `ch` grants castling number `i` with the rook on `r`.
pub open spec fn letter_grants(b: Seq<Cell>, ch: char, i: int, r: int) -> bool {
    let c = side_named(ch);
    let k = position::king_of(b, c);
    &&& rook_named(b, k, ch) == Some(r)
    &&& geom::rank(k) == position::back_rank(c)
    &&& b[r] == rules::man(c, PieceType::Rook)
    &&& i == 2 * c.index() + (if r > k {
        0int
    } else {
        1
    })
}

/// The castling letter `ch` grants something on board `b`.
pub open spec fn letter_ok(b: Seq<Cell>, ch: char) -> bool {
    exists|i: int, r: int| letter_grants(b, ch, i, r)
}

/// The grants `g` are those of the first `n` letters of `f`: each letter grants a castling,
/// a later letter replaces an earlier one's rook, and nothing else is granted.
pub open spec fn granted(b: Seq<Cell>, f: Seq<char>, n: int, g: Grants) -> bool {
    &&& forall|j: int| 0 <= j < n ==> letter_ok(b, #[trigger] f[j])
    &&& forall|i: int|
        0 <= i < 4 ==> (#[trigger] g.rights[i] <==> exists|j: int, r: int|
            0 <= j < n && #[trigger] letter_grants(b, f[j], i, r))
    &&& forall|i: int|
        0 <= i < 4 && #[trigger] g.rights[i] ==> exists|j: int|
            0 <= j < n && #[trigger] letter_grants(b, f[j], i, g.rooks[i].at())
    &&& g.frc <==> exists|j: int| 0 <= j < n && #[trigger] file_letter(f[j])
}

/// Whether a castling letter names the rook by its file.
pub open spec fn file_letter(ch: char) -> bool {
    ('A' <= ch && ch <= 'H') || ('a' <= ch && ch <= 'h')
}

impl Position {
    /// Walks from `s` towards the king's file for a rook of side `c`.
    fn find_rook(&self, c: Color, k: Square, s: u8, east: bool) -> (r: Option<Square>)
        requires
            self.mirrored(),
            k.ok(),
            s == (if east {
                if c == Color::White {
                    0int
                } else {
                    56
                }
            } else {
                if c == Color::White {
                    7int
                } else {
                    63
                }
            }),
            geom::rank(k.at()) == position::back_rank(c),
        ensures
            match r {
                Some(q) => q.ok() && outer_rook(
                    self.board(),
                    c,
                    k.at(),
                    s as int,
                    if east {
                        1
                    } else {
                        -1
                    },
                    8,
                ) == Some(q.at()),
                None => outer_rook(
                    self.board(),
                    c,
                    k.at(),
                    s as int,
                    if east {
                        1
                    } else {
                        -1
                    },
                    8,
                ) is None,
            },
    {
        let rooks = self.pieces(PieceType::Rook, c);
        let ghost b = self.board();
        let ghost d = if east {
            1int
        } else {
            -1
        };
        let mut at: i8 = s as i8;
        let mut left: u8 = 8;
        while left > 0 && at != k.0 as i8
            invariant
                b == self.board(),
                k.ok(),
                left <= 8,
                d == (if east {
                    1int
                } else {
                    -1
                }),
                at == (if east {
                    s + (8 - left)
                } else {
                    s - (8 - left)
                }),
                left > 0 ==> 0 <= at < 64,
                s == 0 || s == 56 || s == 7 || s == 63,
                east == (s == 0 || s == 56),
                forall|q: int| #[trigger] rooks.has(q) <==> geom::on_board(q) && b[q] == rules::man(c, PieceType::Rook),
                outer_rook(b, c, k.at(), at as int, d, left as nat) == outer_rook(b, c, k.at(), s as int, d, 8),
            decreases left,
        {
            let q = Square(at as u8);
            if rooks.check_bit(q) {
                return Some(q);
            }
            at = if east {
                at + 1
            } else {
                at - 1
            };
            left = left - 1;
        }
        None
    }

    /// The castling a letter grants, as its number and rook.
    fn read_grant(&self, ch: char) -> (r: Option<(usize, Square)>)
        requires
            self.mirrored(),
            position::one_king_each(self.board()),
        ensures
            match r {
                Some(g) => g.0 < 4 && g.1.ok() && letter_grants(self.board(), ch, g.0 as int, g.1.at()),
                None => !letter_ok(self.board(), ch),
            },
    {
        let c = if 'A' <= ch && ch <= 'Z' {
            Color::White
        } else {
            Color::Black
        };
        let k = self.king_square(c);
        let (home, corner): (u8, u8) = match c {
            Color::White => (0, 0),
            Color::Black => (7, 56),
        };
        if k.rank() != home {
            return None;
        }
        let named: Option<Square> = if ch == 'K' || ch == 'k' {
            self.find_rook(c, k, corner + 7, false)
        } else if ch == 'Q' || ch == 'q' {
            self.find_rook(c, k, corner, true)
        } else if 'A' <= ch && ch <= 'H' {
            Some(Square((ch as u32 - 'A' as u32) as u8))
        } else if 'a' <= ch && ch <= 'h' {
            Some(Square(56 + (ch as u32 - 'a' as u32) as u8))
        } else {
            None
        };
        match named {
            None => None,
            Some(q) => {
                let rooks = self.pieces(PieceType::Rook, c);
                if rooks.check_bit(q) {
                    let i: usize = 2 * c.idx() + (if q.0 > k.0 {
                        0
                    } else {
                        1
                    });
                    assert(letter_grants(self.board(), ch, i as int, q.at()));
                    Some((i, q))
                } else {
                    None
                }
            },
        }
    }

    /// Reads the castling field.
    fn read_grants(&self, f: &Vec<char>) -> (r: Option<Grants>)
        requires
            self.mirrored(),
            position::one_king_each(self.board()),
        ensures
            match r {
                Some(g) => granted(self.board(), f@, f@.len() as int, g),
                None => exists|j: int| 0 <= j < f@.len() && !letter_ok(self.board(), #[trigger] f@[j]),
            },
    {
        let ghost b = self.board();
        let mut g = Grants { rights: [false; 4], rooks: [Square(0); 4], frc: false };
        let mut n: usize = 0;
        while n < f.len()
            invariant
                self.mirrored(),
                position::one_king_each(b),
                b == self.board(),
                n <= f@.len(),
                granted(b, f@, n as int, g),
            decreases f@.len() - n,
        {
            let ch = f[n];
            let ghost g0 = g;
            match self.read_grant(ch) {
                None => {
                    assert(!letter_ok(b, f@[n as int]));
                    return None;
                },
                Some(t) => {
                    let (i, q) = t;
                    g.rights[i] = true;
                    g.rooks[i] = q;
                    if ('A' <= ch && ch <= 'H') || ('a' <= ch && ch <= 'h') {
                        g.frc = true;
                    }
                    proof {
                        assert(letter_grants(b, f@[n as int], i as int, q.at()));
                        let m = n as int + 1;
                        assert forall|x: int| 0 <= x < 4 implies (#[trigger] g.rights[x] <==> exists|j: int, r: int|
                            0 <= j < m && #[trigger] letter_grants(b, f@[j], x, r)) by {
                            if g0.rights[x] {
                                let (j, r): (int, int) = choose|j: int, r: int|
                                    0 <= j < n && #[trigger] letter_grants(b, f@[j], x, r);
                                assert(letter_grants(b, f@[j], x, r));
                            }
                        }
                        assert forall|x: int| 0 <= x < 4 && #[trigger] g.rights[x] implies exists|j: int|
                            0 <= j < m && #[trigger] letter_grants(b, f@[j], x, g.rooks[x].at()) by {
                            if x == i {
                                assert(letter_grants(b, f@[n as int], x, g.rooks[x].at()));
                            } else {
                                assert(g0.rights[x]);
                                let j = choose|j: int|
                                    0 <= j < n && #[trigger] letter_grants(b, f@[j], x, g0.rooks[x].at());
                                assert(letter_grants(b, f@[j], x, g.rooks[x].at()));
                            }
                        }
                        assert(g.frc <==> exists|j: int| 0 <= j < m && #[trigger] file_letter(f@[j])) by {
                            if g0.frc {
                                let j = choose|j: int| 0 <= j < n && #[trigger] file_letter(f@[j]);
                                assert(file_letter(f@[j]));
                            }
                            if file_letter(ch) {
                                assert(file_letter(f@[n as int]));
                            }
                        }
                    }
                },
            }
            n = n + 1;
        }
        Some(g)
    }
}

/// An empty board has empty keys.
proof fn lemma_bare_keys(k: KeyKind, n: nat)
    requires
        n <= 64,
    ensures
        zobrist::key_below(k, bare(), n) == 0,
    decreases n,
{
    if n > 0 {
        lemma_bare_keys(k, (n - 1) as nat);
        zobrist::lemma_swap(0, 0, 0);
    }
}

/// The square a two-letter name stands for.
pub open spec fn square_named(f: Seq<char>) -> Option<int> {
    if f.len() == 2 && 'a' <= f[0] && f[0] <= 'h' && '1' <= f[1] && f[1] <= '8' {
        Some((f[1] as int - '1' as int) * 8 + (f[0] as int - 'a' as int))
    } else {
        None
    }
}

/// Reads a square's name.
pub fn read_square(f: &Vec<char>) -> (r: Option<Square>)
    ensures
        match r {
            Some(q) => q.ok() && square_named(f@) == Some(q.at()),
            None => square_named(f@) is None,
        },
{
    if f.len() != 2 {
        return None;
    }
    let x = f[0];
    let y = f[1];
    if 'a' <= x && x <= 'h' && '1' <= y && y <= '8' {
        Some(Square::from_coords((x as u32 - 'a' as u32) as u8, (y as u32 - '1' as u32) as u8))
    } else {
        None
    }
}

/// Whether a field is the dash that stands for nothing.
pub open spec fn dash(f: Seq<char>) -> bool {
    f == seq!['-']
}

/// The side a field names.
pub open spec fn side_of(f: Seq<char>) -> Option<Color> {
    if f == seq!['w'] {
        Some(Color::White)
    } else if f == seq!['b'] {
        Some(Color::Black)
    } else {
        None
    }
}

/// The counter in field `i`, `missing` where there is no such field.
pub open spec fn counter(w: Seq<Seq<char>>, i: int, missing: int) -> Option<int> {
    if i >= w.len() {
        Some(missing)
    } else {
        match text::number(w[i]) {
            Some(x) => if x <= u32::MAX {
                Some(x)
            } else {
                None
            },
            None => None,
        }
    }
}

/// Whether `t` can be the square that a pawn has just passed over.
pub open spec fn passable(p: Position, t: Square) -> bool {
    (Position { en_passant: Some(t), ..p }).ep_sound()
}

/// The letters of the castling field, none for a dash.
pub open spec fn castling_letters(f: Seq<char>) -> Seq<char> {
    if dash(f) {
        Seq::empty()
    } else {
        f
    }
}

/// What is wrong with placement and side, if anything.
pub open spec fn men_fault(f: Seq<char>, g: Seq<char>) -> Option<FenError> {
    if board_of(f) is None {
        Some(FenError::Placement)
    } else if side_of(g) is None {
        Some(FenError::Side)
    } else if !position::one_king_each(board_of(f)->0) {
        Some(FenError::Kings)
    } else if !pawns_on_board(board_of(f)->0) {
        Some(FenError::Pawns)
    } else {
        None
    }
}

/// What is wrong with the state of the game on board `b`, if anything.
pub open spec fn state_fault(w: Seq<Seq<char>>, b: Seq<Cell>, stm: Color) -> Option<FenError> {
    if !letters_ok(b, castling_letters(w[2])) {
        Some(FenError::Castling)
    } else if !dash(w[3]) && square_named(w[3]) is None {
        Some(FenError::EnPassant)
    } else if counter(w, 4, 0) is None || counter(w, 5, 1) is None {
        Some(FenError::Counter)
    } else if rules::attacked(b, stm, position::king_of(b, stm.other())) {
        Some(FenError::Check)
    } else {
        None
    }
}

/// Each letter of `f` grants a castling.
pub open spec fn letters_ok(b: Seq<Cell>, f: Seq<char>) -> bool {
    forall|j: int| 0 <= j < f.len() ==> letter_ok(b, #[trigger] f[j])
}

/// What reading the words `w` finds wrong first, if anything.
pub open spec fn fault(w: Seq<Seq<char>>) -> Option<FenError> {
    if w.len() < 4 || w.len() > 6 {
        Some(FenError::Fields)
    } else {
        match men_fault(w[0], w[1]) {
            Some(e) => Some(e),
            None => state_fault(w, board_of(w[0])->0, side_of(w[1])->0),
        }
    }
}

/// No pawn of `b` stands on the first or last rank.
pub open spec fn pawns_on_board(b: Seq<Cell>) -> bool {
    forall|s: int|
        geom::on_board(s) && (#[trigger] b[s]) is Some && b[s]->0.kind == PieceType::Pawn ==> 1 <= geom::rank(s) <= 6
}

/// The position `p` is what the words `w` describe.
pub open spec fn described(w: Seq<Seq<char>>, p: Position) -> bool {
    &&& board_of(w[0]) == Some(p.board())
    &&& side_of(w[1]) == Some(p.stm)
    &&& granted(
        p.board(),
        castling_letters(w[2]),
        castling_letters(w[2]).len() as int,
        Grants { rights: p.castling_rights, rooks: p.castling_rooks, frc: p.is_frc },
    )
    &&& match p.en_passant {
        Some(t) => square_named(w[3]) == Some(t.at()) && passable(p, t),
        None => dash(w[3]) || !passable(p, Square(square_named(w[3])->0 as u8)),
    }
    &&& counter(w, 4, 0) == Some(p.halfmove_clock as int)
    &&& counter(w, 5, 1) == Some(p.fullmove_number as int)
}

impl Position {
    /// A position without men.
    fn bare() -> (p: Position)
        ensures
            p.coherent(),
            p.board() == bare(),
            p.stm == Color::White,
            p.en_passant is None,
            p.castling_rights@ == seq![false, false, false, false],
    {
        let rights: [bool; 4] = [false; 4];
        let hash: u64 = zobrist::state_word_of(&rights, None, Color::White);
        let p = Position {
            cells: [None; 64],
            side_bb: [Bitboard(0); 2],
            role_bb: [Bitboard(0); 6],
            occ: Bitboard(0),
            hash,
            pawn_key: 0,
            minor_key: 0,
            major_key: 0,
            castling_rights: rights,
            castling_rooks: [Square(0); 4],
            stm: Color::White,
            en_passant: None,
            halfmove_clock: 0,
            fullmove_number: 1,
            is_frc: false,
        };
        proof {
            assert(p.board() =~= bare());
            assert(p.castling_rights@ =~= seq![false, false, false, false]);
            lemma_bare_keys(KeyKind::All, 64);
            lemma_bare_keys(KeyKind::Pawn, 64);
            lemma_bare_keys(KeyKind::Minor, 64);
            lemma_bare_keys(KeyKind::Major, 64);
            zobrist::lemma_swap(hash, 0, 0);
            assert forall|s: int| !#[trigger] Bitboard(0).has(s) by {
                bitboard::lemma_zero(s);
            }
            assert(p.mirrored());
        }
        p
    }

    /// Sets up the men of a board.
    fn set_up(cells: &[Cell; 64]) -> (p: Position)
        requires
            rules::placement(cells@),
        ensures
            p.coherent(),
            p.board() == cells@,
            p.castling_rights@ == seq![false, false, false, false],
            p.en_passant is None,
            p.stm == Color::White,
    {
        let mut p = Position::bare();
        let mut acc: Accumulator = p.get_initial_accumulator();
        let mut s: usize = 0;
        while s < 64
            invariant
                s <= 64,
                rules::placement(cells@),
                p.coherent(),
                acc.of(p.board()),
                p.castling_rights@ == seq![false, false, false, false],
                p.en_passant is None,
                p.stm == Color::White,
                forall|x: int| 0 <= x < s ==> #[trigger] p.board()[x] == cells@[x],
                forall|x: int| s <= x < 64 ==> (#[trigger] p.board()[x]) is None,
            decreases 64 - s,
        {
            if let Some(m) = cells[s] {
                assert(cells@[s as int] is Some);
                p.put(m, Square(s as u8), &mut acc);
            }
            s = s + 1;
        }
        assert(p.board() =~= cells@);
        p
    }

    /// Whether a pawn can just have passed over `t`.
    fn may_pass(&self, t: Square) -> (r: bool)
        requires
            self.mirrored(),
            position::one_king_each(self.board()),
            t.ok(),
        ensures
            r == passable(*self, t),
    {
        let us = self.stm;
        let opp = us.opposite();
        let (want, victim, origin): (u8, i8, i8) = match us {
            Color::White => (5, t.0 as i8 - 8, t.0 as i8 + 8),
            Color::Black => (2, t.0 as i8 + 8, t.0 as i8 - 8),
        };
        let ghost q = Position { en_passant: Some(t), ..*self };
        if t.rank() != want {
            return false;
        }
        let v = Square(victim as u8);
        let w = Square(origin as u8);
        if self.occ.check_bit(t) || self.occ.check_bit(w) || !self.pieces(PieceType::Pawn, opp).check_bit(v) {
            return false;
        }
        let k = self.king_square(us);
        let occ = self.occ.and(v.bitboard().not()).or(w.bitboard());
        let found = self.attackers(k, opp, occ).and(v.bitboard().not());
        let pawn_hits = crate::chess::attacks::atk_pawn(w, opp).check_bit(k);
        proof {
            let b = self.board();
            let b0 = q.before_push(t.at());
            assert(rules::occupancy_of(occ, b0)) by {
                assert forall|s: int| #[trigger] occ.has(s) <==> rules::occupied(b0, s) by {}
            }
            rules::lemma_reaches(b0, occ);
            assert forall|a: int| #[trigger] rules::hits(b0, opp, a, k.at()) <==> found.has(a) || (a == w.at() && pawn_hits) by {}
            if rules::attacked(b0, opp, k.at()) {
                let a = choose|a: int| #[trigger] rules::hits(b0, opp, a, k.at());
                assert(found.has(a) || pawn_hits);
            }
            if pawn_hits {
                assert(rules::hits(b0, opp, w.at(), k.at()));
            }
            if found.0 != 0 {
                let a = found.lemma_nonempty();
                assert(rules::hits(b0, opp, a, k.at()));
            }
        }
        found.is_empty() && !pawn_hits
    }

    /// Whether each side has exactly one king.
    fn kings_stand(&self) -> (r: bool)
        requires
            self.mirrored(),
        ensures
            r == position::one_king_each(self.board()),
    {
        let w = self.pieces(PieceType::King, Color::White);
        let b = self.pieces(PieceType::King, Color::Black);
        proof {
            lemma_one_king(self.board(), Color::White, w);
            lemma_one_king(self.board(), Color::Black, b);
        }
        w.is_not_empty() && !w.more_than_one() && b.is_not_empty() && !b.more_than_one()
    }

    /// Reads placement and side.
    fn read_men(f: &Vec<char>, g: &Vec<char>) -> (r: Result<(Position, Color), FenError>)
        ensures
            match r {
                Ok(t) => {
                    &&& men_fault(f@, g@) is None
                    &&& t.0.coherent()
                    &&& board_of(f@) == Some(t.0.board())
                    &&& side_of(g@) == Some(t.1)
                },
                Err(e) => men_fault(f@, g@) == Some(e),
            },
    {
        let cells = match read_board(f) {
            Some(c) => c,
            None => {
                return Err(FenError::Placement);
            },
        };
        let stm = if g.len() == 1 && g[0] == 'w' {
            assert(g@ =~= seq!['w']);
            Color::White
        } else if g.len() == 1 && g[0] == 'b' {
            assert(g@ =~= seq!['b']);
            Color::Black
        } else {
            return Err(FenError::Side);
        };
        let p = Position::set_up(&cells);
        if !p.kings_stand() {
            return Err(FenError::Kings);
        }
        let ghost b = p.board();
        proof {
            bitboard::lemma_ranks();
        }
        let edge = Bitboard(0xff00_0000_0000_0000).or(Bitboard(0x0000_0000_0000_00ff));
        let stray = p.role(PieceType::Pawn).and(edge);
        if stray.is_not_empty() {
            proof {
                let s = stray.lemma_nonempty();
                assert(b[s] is Some);
            }
            return Err(FenError::Pawns);
        }
        assert(pawns_on_board(b)) by {
            assert forall|s: int|
                geom::on_board(s) && (#[trigger] b[s]) is Some && b[s]->0.kind == PieceType::Pawn implies 1 <= geom::rank(
                s,
            ) <= 6 by {
                assert(!stray.has(s));
            }
        }
        Ok((p, stm))
    }

    /// Reads the castling field, which may be a dash.
    fn read_castling(&self, f: &Vec<char>) -> (r: Option<Grants>)
        requires
            self.mirrored(),
            position::one_king_each(self.board()),
        ensures
            match r {
                Some(g) => {
                    &&& letters_ok(self.board(), castling_letters(f@))
                    &&& granted(self.board(), castling_letters(f@), castling_letters(f@).len() as int, g)
                    &&& forall|i: int| 0 <= i < 4 ==> grant_sound(self.board(), #[trigger] g.rights[i], g.rooks[i].at(), i)
                },
                None => !letters_ok(self.board(), castling_letters(f@)),
            },
    {
        let none: Vec<char> = Vec::new();
        let no_castling = f.len() == 1 && f[0] == '-';
        let letters = if no_castling {
            assert(f@ =~= seq!['-']);
            &none
        } else {
            f
        };
        assert(castling_letters(f@) =~= letters@);
        let r = self.read_grants(letters);
        proof {
            if let Some(g) = r {
                assert forall|i: int| 0 <= i < 4 implies grant_sound(
                    self.board(),
                    #[trigger] g.rights[i],
                    g.rooks[i].at(),
                    i,
                ) by {
                    lemma_grant_sound(self.board(), letters@, g, i);
                }
            }
        }
        r
    }

    /// Reads the en passant field: the inner `None` is a dash.
    fn read_passed(f: &Vec<char>) -> (r: Option<Option<Square>>)
        ensures
            match r {
                Some(Some(t)) => t.ok() && !dash(f@) && square_named(f@) == Some(t.at()),
                Some(None) => dash(f@),
                None => !dash(f@) && square_named(f@) is None,
            },
    {
        if f.len() == 1 && f[0] == '-' {
            assert(f@ =~= seq!['-']);
            return Some(None);
        }
        match read_square(f) {
            Some(t) => Some(Some(t)),
            None => None,
        }
    }

    /// Reads a move counter that may be missing.
    fn read_counter(w: &Vec<Vec<char>>, i: usize, missing: u32) -> (r: Option<u32>)
        ensures
            match r {
                Some(x) => counter(text::spelled(w@), i as int, missing as int) == Some(x as int),
                None => counter(text::spelled(w@), i as int, missing as int) is None,
            },
    {
        if i < w.len() {
            text::number_of(&w[i])
        } else {
            Some(missing)
        }
    }

    /// Reads a position, or says what is wrong with the text first.
    ///
    /// An en passant square that no pawn can just have passed over is ignored.
    pub fn try_from_fen(fen: &str) -> (r: Result<Position, FenError>)
        ensures
            match r {
                Ok(p) => fault(text::words(fen@)) is None && p.wf() && described(text::words(fen@), p),
                Err(e) => fault(text::words(fen@)) == Some(e),
            },
    {
        Position::try_from_words(&text::words_of(&text::chars_of(fen)))
    }

    /// Reads a position from the words of its description.
    pub fn try_from_words(w: &Vec<Vec<char>>) -> (r: Result<Position, FenError>)
        ensures
            match r {
                Ok(p) => fault(text::spelled(w@)) is None && p.wf() && described(text::spelled(w@), p),
                Err(e) => fault(text::spelled(w@)) == Some(e),
            },
    {
        let ghost ws = text::spelled(w@);
        if w.len() < 4 || w.len() > 6 {
            return Err(FenError::Fields);
        }
        assert(ws[0] == w@[0]@ && ws[1] == w@[1]@ && ws[2] == w@[2]@ && ws[3] == w@[3]@);
        let (p, stm) = match Position::read_men(&w[0], &w[1]) {
            Ok(t) => t,
            Err(e) => {
                return Err(e);
            },
        };
        let g = match p.read_castling(&w[2]) {
            Some(g) => g,
            None => {
                return Err(FenError::Castling);
            },
        };
        let passed = match Position::read_passed(&w[3]) {
            Some(t) => t,
            None => {
                return Err(FenError::EnPassant);
            },
        };
        let half = Position::read_counter(w, 4, 0);
        let full = Position::read_counter(w, 5, 1);
        let (half, full): (u32, u32) = match (half, full) {
            (Some(h), Some(f)) => (h, f),
            _ => {
                return Err(FenError::Counter);
            },
        };
        match p.complete(g, stm, passed, half, full) {
            None => Err(FenError::Check),
            Some(q) => {
                proof {
                    assert(g == Grants { rights: q.castling_rights, rooks: q.castling_rooks, frc: q.is_frc });
                    assert(passed is Some ==> passed->0 == Square(square_named(ws[3])->0 as u8));
                    assert(described(ws, q));
                }
                Ok(q)
            },
        }
    }

    /// The position a sound text describes.
    pub fn from_fen(fen: &str) -> (p: Position)
        requires
            fault(text::words(fen@)) is None,
        ensures
            p.wf(),
            described(text::words(fen@), p),
    {
        match Position::try_from_fen(fen) {
            Ok(p) => p,
            Err(_) => vstd::pervasive::unreached(),
        }
    }

    /// Adds the state of the game to a board, unless the side that has just moved is in
    /// check.
    fn complete(self, g: Grants, stm: Color, passed: Option<Square>, half: u32, full: u32) -> (r: Option<Position>)
        requires
            self.coherent(),
            position::one_king_each(self.board()),
            pawns_on_board(self.board()),
            forall|i: int| 0 <= i < 4 ==> grant_sound(self.board(), #[trigger] g.rights[i], g.rooks[i].at(), i),
            passed matches Some(t) ==> t.ok(),
        ensures
            match r {
                None => rules::attacked(self.board(), stm, position::king_of(self.board(), stm.other())),
                Some(q) => {
                    &&& !rules::attacked(self.board(), stm, position::king_of(self.board(), stm.other()))
                    &&& q.wf()
                    &&& q.board() == self.board()
                    &&& q.stm == stm
                    &&& q.castling_rights == g.rights
                    &&& q.castling_rooks == g.rooks
                    &&& q.is_frc == g.frc
                    &&& q.halfmove_clock == half
                    &&& q.fullmove_number == full
                    &&& match q.en_passant {
                        Some(t) => passed == Some(t) && passable(q, t),
                        None => passed is None || !passable(q, passed->0),
                    }
                },
            },
    {
        let mut p = self;
        p.adopt(g.rights, stm);
        p.castling_rooks = g.rooks;
        p.is_frc = g.frc;
        p.halfmove_clock = half;
        p.fullmove_number = full;
        let ghost b = self.board();
        let idle = p.king_square(stm.opposite());
        let checks = p.get_attackers_on(idle, stm);
        if checks.is_not_empty() {
            proof {
                let a = checks.lemma_nonempty();
                assert(rules::hits(b, stm, a, idle.at()));
            }
            return None;
        }
        proof {
            if rules::attacked(b, stm, idle.at()) {
                let a = choose|a: int| #[trigger] rules::hits(b, stm, a, idle.at());
                assert(checks.has(a));
            }
        }
        if let Some(t) = passed {
            if p.may_pass(t) {
                let ghost p0 = p;
                p.pass_over(t);
                assert(passable(p, t) == passable(p0, t));
            }
        }
        proof {
            assert forall|i: int| 0 <= i < 4 implies #[trigger] p.castling_sound(i) by {
                assert(grant_sound(b, g.rights[i], g.rooks[i].at(), i));
            }
            if p.en_passant is Some {
                assert(passable(p, p.en_passant->0));
            }
            assert(p.ep_sound());
        }
        Some(p)
    }
}

/// King and rook of castling `i` stand at home if it is held.
pub open spec fn grant_sound(b: Seq<Cell>, held: bool, r: int, i: int) -> bool {
    let c = position::castling_side(i);
    let k = position::king_of(b, c);
    held ==> {
        &&& geom::on_board(r)
        &&& geom::rank(r) == position::back_rank(c)
        &&& geom::rank(k) == position::back_rank(c)
        &&& b[r] == rules::man(c, PieceType::Rook)
        &&& if i % 2 == 0 {
            r > k
        } else {
            r < k
        }
    }
}

/// What the set of a side's kings says of the board.
proof fn lemma_one_king(b: Seq<Cell>, c: Color, kings: Bitboard)
    requires
        b.len() == 64,
        forall|s: int| #[trigger] kings.has(s) <==> geom::on_board(s) && b[s] == rules::man(c, PieceType::King),
    ensures
        (exists|k: int| position::king_at(b, c, k)) <==> (exists|s: int| #[trigger] kings.has(s)) && !(exists|
            s: int,
            t: int,
        | #[trigger] kings.has(s) && #[trigger] kings.has(t) && s != t),
{
    if exists|k: int| position::king_at(b, c, k) {
        let k = choose|k: int| position::king_at(b, c, k);
        assert(kings.has(k));
    }
    if (exists|s: int| #[trigger] kings.has(s)) && !(exists|s: int, t: int| #[trigger]
        kings.has(s) && #[trigger] kings.has(t) && s != t) {
        let k = choose|s: int| #[trigger] kings.has(s);
        assert forall|s: int| geom::on_board(s) && #[trigger] b[s] == rules::man(c, PieceType::King) implies s == k by {
            assert(kings.has(s));
        }
        assert(position::king_at(b, c, k));
    }
}

/// A castling that the letters grant is sound.
proof fn lemma_grant_sound(b: Seq<Cell>, f: Seq<char>, g: Grants, i: int)
    requires
        0 <= i < 4,
        position::one_king_each(b),
        granted(b, f, f.len() as int, g),
    ensures
        grant_sound(b, g.rights[i], g.rooks[i].at(), i),
{
    if g.rights[i] {
        let j = choose|j: int| 0 <= j < f.len() && #[trigger] letter_grants(b, f[j], i, g.rooks[i].at());
        let c = side_named(f[j]);
        let k = position::king_of(b, c);
        let r = g.rooks[i].at();
        assert(position::king_at(b, c, k)) by {
            match c {
                Color::White => {},
                Color::Black => {},
            }
        }
        lemma_outer_rook_rank(b, c, k, f[j]);
        assert(geom::rank(r) == position::back_rank(c));
        assert(r != k);
    }
}

/// A rook named by a letter stands on its side's first rank.
proof fn lemma_outer_rook_rank(b: Seq<Cell>, c: Color, k: int, ch: char)
    requires
        c == side_named(ch),
        rook_named(b, k, ch) is Some,
    ensures
        geom::rank(rook_named(b, k, ch)->0) == position::back_rank(c),
        geom::on_board(rook_named(b, k, ch)->0),
{
    reveal_with_fuel(outer_rook, 9);
}

/// Capital letters are White's men and small ones Black's, of the same kinds.
pub proof fn law_letters_tell_the_sides_apart(c: char)
    ensures
        man_of(c) matches Some(m) ==> (m.color == Color::White <==> 'A' <= c <= 'Z'),
        man_of(c) matches Some(m) ==> (m.color == Color::Black <==> 'a' <= c <= 'z'),
        man_of(c) matches Some(m) ==> m.kind != PieceType::Empty && (man_of(text::lower(c)) matches Some(n) && n.kind == m.kind),
        'A' <= c <= 'Z' && man_of(text::lower(c)) is Some ==> man_of(c) is Some,
{
    if 'A' <= c && c <= 'Z' {
        assert(65 <= c as int <= 90);
        assert(text::lower(c) as int == c as int + 32);
    }
}

/// A placement is read from the eighth rank down and from the first file on: a letter's man ends
/// up on the square that is next when it is read, and the squares that a digit skips stay as they
/// were.
pub proof fn law_men_stand_where_they_are_read(f: Seq<char>, i: int, rank: int, file: int, b: Seq<Cell>, r: Seq<Cell>)
    requires
        0 <= i < f.len(),
        0 <= rank < 8,
        0 <= file < 8,
        b.len() == 64,
        scan(f, i, rank, file, b) == Some(r),
    ensures
        man_of(f[i]) is Some ==> r[rank * 8 + file] == man_of(f[i]),
        '1' <= f[i] <= '8' ==> forall|k: int|
            file <= k < file + (f[i] as int - '0' as int) ==> k < 8 && #[trigger] r[rank * 8 + k] == b[rank * 8 + k],
        f[i] != '/',
        board_of(f) is Some && i == 0 && man_of(f[0]) is Some ==> board_of(f)->0[56] == man_of(f[0]),
{
    lemma_read_squares_stay(f, i, rank, file, b, r);
    if '1' <= f[i] && f[i] <= '8' {
        lemma_read_squares_stay(f, i + 1, rank, file + (f[i] as int - '0' as int), b, r);
    } else if man_of(f[i]) is Some {
        lemma_read_squares_stay(f, i + 1, rank, file + 1, b.update(rank * 8 + file, man_of(f[i])), r);
    }
    if board_of(f) is Some && man_of(f[0]) is Some {
        lemma_read_squares_stay(f, 1, 7, 1, bare().update(56, man_of(f[0])), board_of(f)->0);
    }
}

/// What has been read is not read again.
proof fn lemma_read_squares_stay(f: Seq<char>, i: int, rank: int, file: int, b: Seq<Cell>, r: Seq<Cell>)
    requires
        0 <= i <= f.len(),
        0 <= rank < 8,
        0 <= file <= 8,
        b.len() == 64,
        scan(f, i, rank, file, b) == Some(r),
    ensures
        r.len() == 64,
        forall|s: int| 0 <= s < 64 && (s / 8 > rank || (s / 8 == rank && s % 8 < file)) ==> #[trigger] r[s] == b[s],
    decreases f.len() - i,
{
    if i < f.len() {
        if f[i] == '/' {
            lemma_read_squares_stay(f, i + 1, rank - 1, 0, b, r);
        } else if '1' <= f[i] && f[i] <= '8' {
            lemma_read_squares_stay(f, i + 1, rank, file + (f[i] as int - '0' as int), b, r);
        } else {
            let c = b.update(rank * 8 + file, man_of(f[i]));
            lemma_read_squares_stay(f, i + 1, rank, file + 1, c, r);
            assert forall|s: int| 0 <= s < 64 && (s / 8 > rank || (s / 8 == rank && s % 8 < file)) implies #[trigger] r[s]
                == b[s] by {
                assert(c[s] == b[s]);
            }
        }
    }
}

/// A castling letter means the outermost rook on its side of the king, or the rook on the file
/// that it names.
pub proof fn law_castling_letters_mean_outer_rooks(b: Seq<Cell>, c: Color, k: int, s: int, d: int, n: nat)
    requires
        d == 1 || d == -1,
    ensures
        outer_rook(b, c, k, s, d, n) matches Some(r) ==> {
            &&& b[r] == rules::man(c, PieceType::Rook)
            &&& d == 1 ==> s <= r && forall|x: int| s <= x < r ==> #[trigger] b[x] != rules::man(c, PieceType::Rook) && x != k
            &&& d == -1 ==> r <= s && forall|x: int| r < x <= s ==> #[trigger] b[x] != rules::man(c, PieceType::Rook) && x != k
        },
    decreases n,
{
    if n > 0 && s != k && b[s] != rules::man(c, PieceType::Rook) {
        law_castling_letters_mean_outer_rooks(b, c, k, s + d, d, (n - 1) as nat);
    }
}

/// A castling letter grants its own side's castling: the first of the two with a rook on the far
/// side of the king in the order of the files, the second with one on the near side.
pub proof fn law_castling_letters_grant_their_sides_rights(b: Seq<Cell>, ch: char, i: int, r: int)
    requires
        letter_grants(b, ch, i, r),
    ensures
        0 <= i < 4,
        position::castling_side(i) == side_named(ch),
        side_named(ch) == Color::White <==> 'A' <= ch <= 'Z',
        i % 2 == 0 <==> r > position::king_of(b, side_named(ch)),
        b[r] == rules::man(side_named(ch), PieceType::Rook),
        'A' <= ch <= 'H' ==> r == ch as int - 'A' as int,
        'a' <= ch <= 'h' ==> r == 56 + (ch as int - 'a' as int),
{
}

/// A square is named by its file and its rank, and every square has a name of its own.
pub proof fn law_squares_are_named_by_file_and_rank(f: Seq<char>, g: Seq<char>)
    requires
        square_named(f) is Some,
    ensures
        geom::on_board(square_named(f)->0),
        geom::file(square_named(f)->0) == f[0] as int - 'a' as int,
        geom::rank(square_named(f)->0) == f[1] as int - '1' as int,
        square_named(g) == square_named(f) ==> g == f,
{
    if square_named(g) == square_named(f) {
        assert(g =~= f);
    }
}

/// White moves where the field says so and Black where it says so; a counter that is missing is
/// what it starts with, and one that is there is the number it spells.
pub proof fn law_fields_say_what_they_spell(f: Seq<char>, w: Seq<Seq<char>>, i: int, missing: int)
    ensures
        side_of(f) == Some(Color::White) <==> f == seq!['w'],
        side_of(f) == Some(Color::Black) <==> f == seq!['b'],
        i >= w.len() ==> counter(w, i, missing) == Some(missing),
        0 <= i < w.len() ==> (counter(w, i, missing) matches Some(x) ==> text::number(w[i]) == Some(x)),
        0 <= i < w.len() && (text::number(w[i]) matches Some(x) && x <= u32::MAX) ==> counter(w, i, missing) == text::number(w[i]),
{
    assert(seq!['w'][0] != seq!['b'][0]);
}

} // verus!
