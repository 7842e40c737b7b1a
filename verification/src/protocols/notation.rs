//! Coordinate move strings, shared by the UCI and XBoard protocols.

use vstd::prelude::*;

use crate::chess::fen;
use crate::chess::legal;
use crate::chess::moves::Move;
use crate::chess::position::Position;
use crate::chess::rules;
use crate::chess::types::{PieceType, Square};
use crate::engine::movegen::gen_legal_moves;
use crate::text;

verus! {

/// Why a text is no move.
#[derive(Clone, Copy, Debug, PartialEq, Eq, Structural)]
pub enum MoveError {
    /// Not two squares and perhaps a promotion letter.
    InvalidFormat,
    /// No legal move of that description.
    NotFound,
}

/// The kind a promotion letter stands for, in either case.
pub open spec fn promo_of(c: char) -> Option<PieceType> {
    if c == 'q' || c == 'Q' {
        Some(PieceType::Queen)
    } else if c == 'r' || c == 'R' {
        Some(PieceType::Rook)
    } else if c == 'b' || c == 'B' {
        Some(PieceType::Bishop)
    } else if c == 'n' || c == 'N' {
        Some(PieceType::Knight)
    } else {
        None
    }
}

/// What a move string asks for: origin, destination and promotion.
pub struct Wish {
    pub from: Square,
    pub to: Square,
    pub promo: Option<PieceType>,
}

/// The move string `s` asks for `w`.
pub open spec fn asks(s: Seq<char>, w: Wish) -> bool {
    &&& s.len() == 4 || s.len() == 5
    &&& fen::square_named(s.subrange(0, 2)) == Some(w.from.at())
    &&& fen::square_named(s.subrange(2, 4)) == Some(w.to.at())
    &&& if s.len() == 5 {
        promo_of(s[4]) is Some && w.promo == promo_of(s[4])
    } else {
        w.promo is None
    }
}

/// Whether `s` is a move string at all.
pub open spec fn well_formed(s: Seq<char>) -> bool {
    &&& s.len() == 4 || s.len() == 5
    &&& fen::square_named(s.subrange(0, 2)) is Some
    &&& fen::square_named(s.subrange(2, 4)) is Some
    &&& s.len() == 5 ==> promo_of(s[4]) is Some
}

/// The promotion of a move.
pub open spec fn promo_spec(m: Move) -> Option<PieceType> {
    if m.promotes() {
        Some(m.promoted())
    } else {
        None
    }
}

/// Whether move `m` goes from where to where `w` says.
pub open spec fn exact(m: Move, w: Wish) -> bool {
    m.src() == w.from.at() && m.dst() == w.to.at() && promo_spec(m) == w.promo
}

/// Whether move `m` is what `w` asks for. Castling is told by the rook it goes to, and also
/// by the square the king lands on.
pub open spec fn meets(m: Move, w: Wish) -> bool {
    ||| exact(m, w)
    ||| m.castles() && w.promo is None && m.src() == w.from.at() && w.to.at() == rules::castle_king(m.src(), m.dst())
}

/// Move `m` is the legal move of `p` that `w` names. A move that goes exactly from where to
/// where it says comes before castling told by the square the king lands on.
pub open spec fn chosen(p: Position, w: Wish, m: Move) -> bool {
    &&& m.canonical() && legal::legal(p, m)
    &&& meets(m, w)
    &&& exact(m, w) || forall|x: Move| x.canonical() && legal::legal(p, x) ==> !#[trigger] exact(x, w)
}

/// What reading the move string `s` on `p` comes to.
pub open spec fn reading(p: Position, s: Seq<char>, r: Result<Move, MoveError>) -> bool {
    match r {
        Ok(m) => exists|w: Wish| #[trigger] asks(s, w) && chosen(p, w, m),
        Err(MoveError::InvalidFormat) => !well_formed(s),
        Err(MoveError::NotFound) => well_formed(s) && forall|w: Wish, m: Move| #[trigger]
            asks(s, w) && m.canonical() && legal::legal(p, m) ==> !#[trigger] meets(m, w),
    }
}

fn piece_from_char(c: char) -> (p: Option<PieceType>)
    ensures
        p == promo_of(c),
{
    match c {
        'q' | 'Q' => Some(PieceType::Queen),
        'r' | 'R' => Some(PieceType::Rook),
        'b' | 'B' => Some(PieceType::Bishop),
        'n' | 'N' => Some(PieceType::Knight),
        _ => None,
    }
}

fn same_promo(a: Option<PieceType>, b: Option<PieceType>) -> (r: bool)
    ensures
        r == (a == b),
{
    match (a, b) {
        (None, None) => true,
        (Some(x), Some(y)) => x == y,
        _ => false,
    }
}

fn square_from(s: &Vec<char>, i: usize) -> (r: Option<Square>)
    requires
        i <= 2,
        i + 2 <= s@.len(),
    ensures
        match r {
            Some(q) => q.ok() && fen::square_named(s@.subrange(i as int, i + 2)) == Some(q.at()),
            None => fen::square_named(s@.subrange(i as int, i + 2)) is None,
        },
{
    let mut v: Vec<char> = Vec::new();
    v.push(s[i]);
    v.push(s[i + 1]);
    assert(v@ =~= s@.subrange(i as int, i + 2));
    fen::read_square(&v)
}

/// Reads what a move string asks for.
fn read_wish(s: &Vec<char>) -> (r: Option<Wish>)
    ensures
        match r {
            Some(w) => w.from.ok() && w.to.ok() && asks(s@, w) && well_formed(s@),
            None => !well_formed(s@),
        },
{
    if s.len() != 4 && s.len() != 5 {
        return None;
    }
    let from = match square_from(s, 0) {
        Some(q) => q,
        None => {
            return None;
        },
    };
    let to = match square_from(s, 2) {
        Some(q) => q,
        None => {
            return None;
        },
    };
    if s.len() == 4 {
        return Some(Wish { from, to, promo: None });
    }
    match piece_from_char(s[4]) {
        Some(p) => Some(Wish { from, to, promo: Some(p) }),
        None => None,
    }
}

/// Whether move `m` goes from where to where `w` says.
fn matches(m: Move, w: &Wish) -> (r: bool)
    requires
        w.from.ok(),
        w.to.ok(),
    ensures
        r == exact(m, *w),
{
    m.from() == w.from && m.to() == w.to && same_promo(m.promo(), w.promo)
}

/// Whether move `m` is what `w` asks for.
fn fits(m: Move, w: &Wish) -> (r: bool)
    requires
        w.from.ok(),
        w.to.ok(),
    ensures
        r == meets(m, *w),
{
    if matches(m, w) {
        return true;
    }
    if m.is_castling() && w.promo.is_none() && m.from() == w.from {
        let file: u8 = if m.to().0 > m.from().0 {
            6
        } else {
            2
        };
        return w.to == Square::from_coords(file, w.from.rank());
    }
    false
}

/// The legal move that a coordinate string (`e2e4`, `e7e8q`) names. Castling is accepted
/// both king to its square (`e1g1`) and king onto rook (`e1h1`).
pub fn parse_uci_move(board: &Position, uci: &str) -> (r: Result<Move, MoveError>)
    requires
        board.wf(),
    ensures
        reading(*board, uci@, r),
        r == Err::<Move, MoveError>(MoveError::InvalidFormat) <==> !well_formed(uci@),
{
    parse_move(board, &text::chars_of(uci))
}

/// The legal move that the characters of a coordinate string name.
pub fn parse_move(board: &Position, s: &Vec<char>) -> (r: Result<Move, MoveError>)
    requires
        board.wf(),
    ensures
        reading(*board, s@, r),
        r == Err::<Move, MoveError>(MoveError::InvalidFormat) <==> !well_formed(s@),
{
    let w = match read_wish(s) {
        Some(w) => w,
        None => {
            return Err(MoveError::InvalidFormat);
        },
    };
    let list = gen_legal_moves(board);
    let mut i: usize = 0;
    while i < list.len()
        invariant
            i <= list@.len(),
            w.from.ok(),
            w.to.ok(),
            asks(s@, w),
            forall|m: Move| #[trigger] list@.contains(m) <==> m.canonical() && legal::legal(*board, m),
            forall|j: int| 0 <= j < i ==> !exact(#[trigger] list@[j], w),
        decreases list@.len() - i,
    {
        let m = list.get(i);
        if matches(m, &w) {
            assert(list@.contains(m));
            assert(chosen(*board, w, m));
            return Ok(m);
        }
        i = i + 1;
    }
    proof {
        assert forall|x: Move| x.canonical() && legal::legal(*board, x) implies !#[trigger] exact(x, w) by {
            assert(list@.contains(x));
            let j = choose|j: int| 0 <= j < list@.len() && list@[j] == x;
            assert(!exact(list@[j], w));
        }
    }
    // A king on its way to the castling square names the castling by where it lands.
    i = 0;
    while i < list.len()
        invariant
            i <= list@.len(),
            w.from.ok(),
            w.to.ok(),
            asks(s@, w),
            forall|m: Move| #[trigger] list@.contains(m) <==> m.canonical() && legal::legal(*board, m),
            forall|x: Move| x.canonical() && legal::legal(*board, x) ==> !#[trigger] exact(x, w),
            forall|j: int| 0 <= j < i ==> !meets(#[trigger] list@[j], w),
        decreases list@.len() - i,
    {
        let m = list.get(i);
        if fits(m, &w) {
            assert(list@.contains(m));
            assert(chosen(*board, w, m));
            return Ok(m);
        }
        i = i + 1;
    }
    proof {
        assert forall|x: Wish, m: Move| #[trigger]
            asks(s@, x) && m.canonical() && legal::legal(*board, m) implies !#[trigger] meets(m, x) by {
            assert(list@.contains(m));
            let j = choose|j: int| 0 <= j < list@.len() && list@[j] == m;
            assert(!meets(list@[j], w));
        }
    }
    Err(MoveError::NotFound)
}

/// The name of square `s`.
pub open spec fn square_name(s: int) -> Seq<char> {
    seq![('a' as int + s % 8) as char, ('1' as int + s / 8) as char]
}

/// The letter of a promotion.
pub open spec fn promo_letter(pt: PieceType) -> char {
    match pt {
        PieceType::Knight => 'n',
        PieceType::Bishop => 'b',
        PieceType::Rook => 'r',
        _ => 'q',
    }
}

/// Where a move goes, as it is written: with the king's own square for castling, unless the
/// variant has the king written onto its rook.
pub open spec fn landing(m: Move, frc: bool) -> int {
    if m.castles() && !frc {
        rules::castle_king(m.src(), m.dst())
    } else {
        m.dst()
    }
}

/// A move in coordinates.
pub open spec fn written(m: Move, frc: bool) -> Seq<char> {
    let squares = square_name(m.src()) + square_name(landing(m, frc));
    if m.promotes() {
        squares.push(promo_letter(m.promoted()))
    } else {
        squares
    }
}

/// The letter of a file.
fn file_text(f: u8) -> (s: &'static str)
    requires
        f < 8,
    ensures
        s@ == seq![('a' as int + f) as char],
{
    proof {
        reveal_strlit("a");
        reveal_strlit("b");
        reveal_strlit("c");
        reveal_strlit("d");
        reveal_strlit("e");
        reveal_strlit("f");
        reveal_strlit("g");
        reveal_strlit("h");
    }
    let s = match f {
        0 => "a",
        1 => "b",
        2 => "c",
        3 => "d",
        4 => "e",
        5 => "f",
        6 => "g",
        _ => "h",
    };
    assert(s@ =~= seq![('a' as int + f) as char]);
    s
}

/// Appends the name of a square.
fn append_square(out: &mut String, sq: Square)
    requires
        sq.ok(),
    ensures
        final(out)@ == old(out)@ + square_name(sq.at()),
{
    let ghost before = out@;
    out.append(file_text(sq.file()));
    text::append_nat(out, sq.rank() as u64 + 1);
    proof {
        assert(text::digit_char(sq.at() / 8 + 1) == ('1' as int + sq.at() / 8) as char);
        assert(out@ =~= before + square_name(sq.at()));
    }
}

/// The letter of a promotion.
fn promo_text(pt: PieceType) -> (s: &'static str)
    ensures
        s@ == seq![promo_letter(pt)],
{
    proof {
        reveal_strlit("n");
        reveal_strlit("b");
        reveal_strlit("r");
        reveal_strlit("q");
    }
    let s = match pt {
        PieceType::Knight => "n",
        PieceType::Bishop => "b",
        PieceType::Rook => "r",
        _ => "q",
    };
    assert(s@ =~= seq![promo_letter(pt)]);
    s
}

impl Move {
    /// The move in coordinates (`e2e4`, `e7e8q`). Castling is written king to its square
    /// (`e1g1`), and king onto rook (`e1h1`) where `frc` is set.
    pub fn to_uci(self, frc: bool) -> (s: String)
        ensures
            s@ == written(self, frc),
    {
        let from = self.from();
        let to = if self.is_castling() && !frc {
            let file: u8 = if self.to().0 > from.0 {
                6
            } else {
                2
            };
            Square::from_coords(file, from.rank())
        } else {
            self.to()
        };
        let mut s = String::new();
        append_square(&mut s, from);
        append_square(&mut s, to);
        assert(s@ =~= square_name(self.src()) + square_name(landing(self, frc)));
        if let Some(pt) = self.promo() {
            s.append(promo_text(pt));
        }
        assert(s@ =~= written(self, frc));
        s
    }
}

/// A written move asks for itself: whatever it is read on, it names that move among others.
pub proof fn law_a_written_move_asks_for_itself(m: Move, frc: bool)
    ensures
        well_formed(written(m, frc)),
        exists|w: Wish| #[trigger] asks(written(m, frc), w) && meets(m, w),
{
    let s = written(m, frc);
    let to = landing(m, frc);
    let w = Wish { from: Square(m.src() as u8), to: Square(to as u8), promo: promo_spec(m) };
    lemma_square_name(m.src());
    lemma_square_name(to);
    assert(s.subrange(0, 2) =~= square_name(m.src()));
    assert(s.subrange(2, 4) =~= square_name(to));
    assert(asks(s, w));
    assert(meets(m, w));
}

/// A legal move is known by where it goes from and to and what it promotes to.
proof fn lemma_known_by_squares(p: Position, a: Move, b: Move)
    requires
        p.wf(),
        a.canonical() && legal::legal(p, a),
        b.canonical() && legal::legal(p, b),
        a.src() == b.src(),
        a.dst() == b.dst(),
        promo_spec(a) == promo_spec(b),
    ensures
        a == b,
{
    assert(a.flag() == b.flag());
    Move::lemma_fields(a, b);
}

/// A legal move comes back from its own string, castling written king onto rook.
pub proof fn law_a_legal_move_is_read_back(p: Position, m: Move, r: Result<Move, MoveError>)
    requires
        p.wf(),
        m.canonical(),
        legal::legal(p, m),
        reading(p, written(m, true), r),
    ensures
        r == Ok::<Move, MoveError>(m),
{
    let s = written(m, true);
    let to = m.dst();
    let v = Wish { from: Square(m.src() as u8), to: Square(to as u8), promo: promo_spec(m) };
    lemma_square_name(m.src());
    lemma_square_name(to);
    assert(s.subrange(0, 2) =~= square_name(m.src()));
    assert(s.subrange(2, 4) =~= square_name(to));
    assert(asks(s, v) && meets(m, v));
    if let Ok(n) = r {
        let w = choose|w: Wish| #[trigger] asks(s, w) && chosen(p, w, n);
        assert(exact(m, w));
        lemma_known_by_squares(p, m, n);
    }
}

/// A legal move other than castling comes back from its own string, however castling is
/// written.
pub proof fn law_a_plain_move_is_read_back(p: Position, m: Move, frc: bool, r: Result<Move, MoveError>)
    requires
        p.wf(),
        m.canonical(),
        legal::legal(p, m),
        !m.castles(),
        reading(p, written(m, frc), r),
    ensures
        r == Ok::<Move, MoveError>(m),
{
    law_a_legal_move_is_read_back(p, m, r);
}

/// A square is found by its name.
proof fn lemma_square_name(s: int)
    requires
        0 <= s < 64,
    ensures
        fen::square_named(square_name(s)) == Some(s),
{
    let f = square_name(s);
    assert(f[0] as int == 'a' as int + s % 8);
    assert(f[1] as int == '1' as int + s / 8);
}

/// Every kind that a pawn turns into is read back from its letter, in either case.
pub proof fn law_promotion_letters_are_read_back(pt: PieceType, c: char)
    ensures
        pt == PieceType::Knight || pt == PieceType::Bishop || pt == PieceType::Rook || pt == PieceType::Queen ==> promo_of(
            promo_letter(pt),
        ) == Some(pt),
        promo_of(c) is Some ==> promo_of(text::lower(c)) == promo_of(c),
        promo_of(c) matches Some(k) ==> (fen::man_of(c) matches Some(m) && m.kind == k),
        promo_of(c) matches Some(k) ==> k != PieceType::Pawn && k != PieceType::King && k != PieceType::Empty,
{
    if 'A' <= c && c <= 'Z' {
        assert(65 <= c as int <= 90);
        assert(text::lower(c) as int == c as int + 32);
    }
}

/// The name of a square leads back to it.
pub proof fn law_names_lead_back_to_their_squares(s: int)
    requires
        0 <= s < 64,
    ensures
        fen::square_named(square_name(s)) == Some(s),
{
}

/// A move is written from where to where, with the kind behind it where a pawn turns into another
/// man; castling with the square that the king lands on, or with its rook's in the other variant.
pub proof fn law_moves_are_written_from_where_to_where(m: Move, frc: bool)
    ensures
        written(m, frc).len() == (if m.promotes() {
            5int
        } else {
            4
        }),
        written(m, frc).subrange(0, 2) == square_name(m.src()),
        !m.castles() || frc ==> written(m, frc).subrange(2, 4) == square_name(m.dst()),
        m.castles() && !frc && m.dst() > m.src() ==> written(m, frc)[2] == 'g',
        m.castles() && !frc && m.dst() < m.src() ==> written(m, frc)[2] == 'c',
        m.castles() && !frc ==> written(m, frc)[3] == written(m, frc)[1],
        m.promotes() ==> promo_of(written(m, frc)[4]) == Some(m.promoted()),
{
    assert(written(m, frc).subrange(0, 2) =~= square_name(m.src()));
    if !m.castles() || frc {
        assert(written(m, frc).subrange(2, 4) =~= square_name(m.dst()));
    }
    law_promotion_letters_are_read_back(m.promoted(), 'q');
}

/// A move that is asked for exactly goes where it is asked to; castling is also asked for by the
/// square that the king lands on, and nothing else is.
pub proof fn law_only_castling_has_two_spellings(m: Move, w: Wish)
    requires
        meets(m, w),
    ensures
        m.src() == w.from.at(),
        promo_spec(m) == w.promo || m.castles(),
        !m.castles() ==> m.dst() == w.to.at(),
        m.castles() ==> w.to.at() == m.dst() || w.to.at() == rules::castle_king(m.src(), m.dst()),
{
}

} // verus!
