//! The Universal Chess Interface: what a command does to the session, and what is to be
//! done outside.
//!
//! A session holds the position and the options. A command line changes it and comes back
//! as a [`UciAction`]; reading lines, printing and searching are left to the caller.

use vstd::prelude::*;

use crate::chess::fen::{self, FenError};
use crate::chess::moves::Move;
use crate::chess::position::Position;
use crate::chess::types::Color;
use crate::engine::config::{Limits, Protocol, SearchDisplay};
use crate::engine::eval::{self, detailed_eval, DetailedEval};
use crate::engine::line;
use crate::protocols::game::{self, Game};
use crate::protocols::notation;
use crate::text;

verus! {

/// What `go` can be told.
#[derive(Clone, Copy, Debug, PartialEq, Eq, Structural)]
pub enum GoKey {
    Wtime,
    Btime,
    Winc,
    Binc,
    Movestogo,
    Depth,
    Softnodes,
    Nodes,
    Movetime,
    Infinite,
    Mate,
    Perft,
    Searchmoves,
}

/// The key that a word stands for.
pub open spec fn go_key(w: Seq<char>) -> Option<GoKey> {
    if w == "wtime"@ {
        Some(GoKey::Wtime)
    } else if w == "btime"@ {
        Some(GoKey::Btime)
    } else if w == "winc"@ {
        Some(GoKey::Winc)
    } else if w == "binc"@ {
        Some(GoKey::Binc)
    } else if w == "movestogo"@ {
        Some(GoKey::Movestogo)
    } else if w == "depth"@ {
        Some(GoKey::Depth)
    } else if w == "softnodes"@ {
        Some(GoKey::Softnodes)
    } else if w == "hardnodes"@ || w == "nodes"@ {
        Some(GoKey::Nodes)
    } else if w == "movetime"@ {
        Some(GoKey::Movetime)
    } else if w == "infinite"@ {
        Some(GoKey::Infinite)
    } else if w == "mate"@ {
        Some(GoKey::Mate)
    } else if w == "perft"@ {
        Some(GoKey::Perft)
    } else if w == "searchmoves"@ {
        Some(GoKey::Searchmoves)
    } else {
        None
    }
}

/// [`go_key`].
fn read_go_key(w: &Vec<char>) -> (r: Option<GoKey>)
    ensures
        r == go_key(w@),
{
    if text::is_word(w, "wtime") {
        Some(GoKey::Wtime)
    } else if text::is_word(w, "btime") {
        Some(GoKey::Btime)
    } else if text::is_word(w, "winc") {
        Some(GoKey::Winc)
    } else if text::is_word(w, "binc") {
        Some(GoKey::Binc)
    } else if text::is_word(w, "movestogo") {
        Some(GoKey::Movestogo)
    } else if text::is_word(w, "depth") {
        Some(GoKey::Depth)
    } else if text::is_word(w, "softnodes") {
        Some(GoKey::Softnodes)
    } else if text::is_word(w, "hardnodes") || text::is_word(w, "nodes") {
        Some(GoKey::Nodes)
    } else if text::is_word(w, "movetime") {
        Some(GoKey::Movetime)
    } else if text::is_word(w, "infinite") {
        Some(GoKey::Infinite)
    } else if text::is_word(w, "mate") {
        Some(GoKey::Mate)
    } else if text::is_word(w, "perft") {
        Some(GoKey::Perft)
    } else if text::is_word(w, "searchmoves") {
        Some(GoKey::Searchmoves)
    } else {
        None
    }
}

/// What `go` asks for.
pub struct Orders {
    pub wtime: u64,
    pub btime: u64,
    pub winc: u64,
    pub binc: u64,
    pub movestogo: u64,
    pub movetime: u64,
    pub depth: i32,
    pub nodes: u64,
    pub softnodes: u64,
    pub infinite: bool,
    pub mate: Option<i32>,
    pub perft: Option<u8>,
    pub searchmoves: Seq<Move>,
}

/// What limits ask for.
pub open spec fn orders_of(l: Limits) -> Orders {
    Orders {
        wtime: l.wtime,
        btime: l.btime,
        winc: l.winc,
        binc: l.binc,
        movestogo: l.movestogo,
        movetime: l.movetime,
        depth: l.depth,
        nodes: l.nodes,
        softnodes: l.softnodes,
        infinite: l.infinite,
        mate: l.mate,
        perft: l.perft,
        searchmoves: l.searchmoves@,
    }
}

/// The number that a word spells; a minus sign only goes with numbers that may be negative.
pub open spec fn spells(w: Seq<char>, lo: int) -> Option<int> {
    if lo < 0 {
        text::signed(w)
    } else {
        text::unsigned(w)
    }
}

/// The number at word `i`, between `lo` and `hi`; `None` where there is no such number.
pub open spec fn number_at(w: Seq<Seq<char>>, i: int, lo: int, hi: int) -> Option<int> {
    if 0 <= i < w.len() && spells(w[i], lo) is Some && lo <= spells(w[i], lo)->0 && spells(w[i], lo)->0 <= hi {
        spells(w[i], lo)
    } else {
        None
    }
}

/// The value behind a key: the number at word `i`, or nothing.
pub open spec fn value_at(w: Seq<Seq<char>>, i: int, lo: int, hi: int) -> int {
    match number_at(w, i, lo, hi) {
        Some(x) => x,
        None => 0,
    }
}

/// Where reading goes on behind the value of a key at word `i`.
pub open spec fn behind(w: Seq<Seq<char>>, i: int, lo: int, hi: int) -> int {
    if number_at(w, i, lo, hi) is Some {
        i + 1
    } else {
        i
    }
}

/// Word `w` names the legal move `m` of `p`.
pub open spec fn calls(p: Position, w: Seq<char>, m: Move) -> bool {
    exists|x: notation::Wish| #[trigger] notation::asks(w, x) && notation::chosen(p, x, m)
}

/// Word `w` names no legal move of `p`.
pub open spec fn calls_none(p: Position, w: Seq<char>) -> bool {
    forall|m: Move| !#[trigger] calls(p, w, m)
}

/// The words from `i` on name the moves `ms` of `p`, and the word behind them names none.
pub open spec fn calls_all(p: Position, w: Seq<Seq<char>>, i: int, ms: Seq<Move>) -> bool {
    &&& i + ms.len() <= w.len()
    &&& forall|k: int| 0 <= k < ms.len() ==> calls(p, w[i + k], #[trigger] ms[k])
    &&& i + ms.len() < w.len() ==> calls_none(p, w[i + ms.len()])
}

/// The greatest `u64`.
pub open spec fn longest() -> int {
    u64::MAX as int
}

/// Reading the words from `i` on turns `a` into `b`. A key takes the number behind it; where
/// there is none its value is zero and the word is read as a key itself. Other words are
/// skipped.
pub open spec fn reads(p: Position, w: Seq<Seq<char>>, i: int, a: Orders, b: Orders) -> bool
    decreases w.len() - i,
{
    if i < 0 || i >= w.len() {
        a == b
    } else {
        let v = value_at(w, i + 1, 0, longest()) as u64;
        let n = behind(w, i + 1, 0, longest());
        match go_key(w[i]) {
            None => reads(p, w, i + 1, a, b),
            Some(GoKey::Wtime) => reads(p, w, n, Orders { wtime: v, ..a }, b),
            Some(GoKey::Btime) => reads(p, w, n, Orders { btime: v, ..a }, b),
            Some(GoKey::Winc) => reads(p, w, n, Orders { winc: v, ..a }, b),
            Some(GoKey::Binc) => reads(p, w, n, Orders { binc: v, ..a }, b),
            Some(GoKey::Movestogo) => reads(p, w, n, Orders { movestogo: v, ..a }, b),
            Some(GoKey::Softnodes) => reads(p, w, n, Orders { softnodes: v, ..a }, b),
            Some(GoKey::Nodes) => reads(p, w, n, Orders { nodes: v, ..a }, b),
            Some(GoKey::Movetime) => reads(p, w, n, Orders { movetime: v, ..a }, b),
            Some(GoKey::Infinite) => reads(p, w, i + 1, Orders { infinite: true, ..a }, b),
            Some(GoKey::Depth) => reads(
                p,
                w,
                behind(w, i + 1, i32::MIN as int, i32::MAX as int),
                Orders { depth: value_at(w, i + 1, i32::MIN as int, i32::MAX as int) as i32, ..a },
                b,
            ),
            Some(GoKey::Mate) => reads(
                p,
                w,
                behind(w, i + 1, i32::MIN as int, i32::MAX as int),
                Orders { mate: Some(value_at(w, i + 1, i32::MIN as int, i32::MAX as int) as i32), ..a },
                b,
            ),
            Some(GoKey::Perft) => reads(
                p,
                w,
                behind(w, i + 1, 0, 255),
                Orders { perft: Some(value_at(w, i + 1, 0, 255) as u8), ..a },
                b,
            ),
            Some(GoKey::Searchmoves) => exists|ms: Seq<Move>| #[trigger]
                calls_all(p, w, i + 1, ms) && reads(
                    p,
                    w,
                    i + 1 + ms.len(),
                    Orders { searchmoves: a.searchmoves + ms, ..a },
                    b,
                ),
        }
    }
}

/// The number at word `i`, and where reading goes on.
pub fn long_at(w: &Vec<Vec<char>>, i: usize) -> (r: (u64, usize))
    requires
        i <= w@.len(),
    ensures
        r.0 == value_at(text::spelled(w@), i as int, 0, longest()),
        r.1 == behind(text::spelled(w@), i as int, 0, longest()),
        i <= r.1 <= w@.len(),
{
    if i < w.len() {
        assert(text::spelled(w@)[i as int] == w@[i as int]@);
        if let Some(x) = text::unsigned_of(&w[i]) {
            return (x, i + 1);
        }
    }
    (0, i)
}

fn int_at(w: &Vec<Vec<char>>, i: usize) -> (r: (i32, usize))
    requires
        i <= w@.len(),
    ensures
        r.0 == value_at(text::spelled(w@), i as int, i32::MIN as int, i32::MAX as int),
        r.1 == behind(text::spelled(w@), i as int, i32::MIN as int, i32::MAX as int),
        i <= r.1 <= w@.len(),
{
    if i < w.len() {
        assert(text::spelled(w@)[i as int] == w@[i as int]@);
        if let Some(x) = text::signed_of(&w[i]) {
            return (x, i + 1);
        }
    }
    (0, i)
}

fn byte_at(w: &Vec<Vec<char>>, i: usize) -> (r: (u8, usize))
    requires
        i <= w@.len(),
    ensures
        r.0 == value_at(text::spelled(w@), i as int, 0, 255),
        r.1 == behind(text::spelled(w@), i as int, 0, 255),
        i <= r.1 <= w@.len(),
{
    if i < w.len() {
        assert(text::spelled(w@)[i as int] == w@[i as int]@);
        if let Some(x) = text::unsigned_of(&w[i]) {
            if x <= 255 {
                return (x as u8, i + 1);
            }
        }
    }
    (0, i)
}

/// The moves that the words from `i` on name.
fn read_moves(board: &Position, w: &Vec<Vec<char>>, i: usize) -> (ms: Vec<Move>)
    requires
        board.wf(),
        i <= w@.len(),
    ensures
        calls_all(*board, text::spelled(w@), i as int, ms@),
{
    let ghost ws = text::spelled(w@);
    let mut ms: Vec<Move> = Vec::new();
    let mut j: usize = i;
    while j < w.len()
        invariant
            board.wf(),
            i <= j <= w@.len(),
            ws == text::spelled(w@),
            ms@.len() == j - i,
            forall|k: int| 0 <= k < ms@.len() ==> calls(*board, ws[i + k], #[trigger] ms@[k]),
        decreases w@.len() - j,
    {
        assert(ws[j as int] == w@[j as int]@);
        match notation::parse_move(board, &w[j]) {
            Ok(m) => {
                assert(calls(*board, ws[j as int], m));
                ms.push(m);
            },
            Err(_) => {
                assert(calls_none(*board, ws[j as int]));
                return ms;
            },
        }
        j = j + 1;
    }
    ms
}

/// Adds the moves of `b` to `a`.
fn extend(a: &mut Vec<Move>, b: &Vec<Move>)
    ensures
        final(a)@ == old(a)@ + b@,
{
    let ghost before = a@;
    let mut i: usize = 0;
    assert(a@ =~= before + b@.take(0));
    while i < b.len()
        invariant
            i <= b@.len(),
            a@ == before + b@.take(i as int),
        decreases b@.len() - i,
    {
        a.push(b[i]);
        i = i + 1;
        assert(a@ =~= before + b@.take(i as int));
    }
    assert(b@.take(b@.len() as int) =~= b@);
}

/// Reads the word at `i` and what belongs to it, and says where reading goes on.
fn read_order(board: &Position, w: &Vec<Vec<char>>, i: usize, l: &mut Limits) -> (n: usize)
    requires
        board.wf(),
        i < w@.len(),
    ensures
        i < n <= w@.len(),
        final(l).silent == old(l).silent,
        final(l).protocol == old(l).protocol,
        forall|b: Orders| #[trigger]
            reads(*board, text::spelled(w@), n as int, orders_of(*final(l)), b) ==> reads(
                *board,
                text::spelled(w@),
                i as int,
                orders_of(*old(l)),
                b,
            ),
{
    let ghost p = *board;
    let ghost ws = text::spelled(w@);
    assert(ws[i as int] == w@[i as int]@);
    assert(i < w.len());
    let key = match read_go_key(&w[i]) {
        Some(k) => k,
        None => {
            return i + 1;
        },
    };
    match key {
        GoKey::Infinite => {
            l.infinite = true;
            i + 1
        },
        GoKey::Depth => {
            let (x, n) = int_at(w, i + 1);
            l.depth = x;
            n
        },
        GoKey::Mate => {
            let (x, n) = int_at(w, i + 1);
            l.mate = Some(x);
            n
        },
        GoKey::Perft => {
            let (x, n) = byte_at(w, i + 1);
            l.perft = Some(x);
            n
        },
        GoKey::Searchmoves => {
            let ghost a = orders_of(*l);
            let ms = read_moves(board, w, i + 1);
            extend(&mut l.searchmoves, &ms);
            let n: usize = i + 1 + ms.len();
            proof {
                let c = orders_of(*l);
                assert(c == Orders { searchmoves: a.searchmoves + ms@, ..a });
                assert forall|b: Orders| #[trigger] reads(p, ws, n as int, c, b) implies reads(p, ws, i as int, a, b) by {
                    assert(calls_all(p, ws, i + 1, ms@));
                }
            }
            n
        },
        _ => {
            let (x, n) = long_at(w, i + 1);
            match key {
                GoKey::Wtime => {
                    l.wtime = x;
                },
                GoKey::Btime => {
                    l.btime = x;
                },
                GoKey::Winc => {
                    l.winc = x;
                },
                GoKey::Binc => {
                    l.binc = x;
                },
                GoKey::Movestogo => {
                    l.movestogo = x;
                },
                GoKey::Softnodes => {
                    l.softnodes = x;
                },
                GoKey::Nodes => {
                    l.nodes = x;
                },
                _ => {
                    l.movetime = x;
                },
            }
            n
        },
    }
}

/// No orders.
pub open spec fn no_orders() -> Orders {
    Orders {
        wtime: 0,
        btime: 0,
        winc: 0,
        binc: 0,
        movestogo: 0,
        movetime: 0,
        depth: 0,
        nodes: 0,
        softnodes: 0,
        infinite: false,
        mate: None,
        perft: None,
        searchmoves: Seq::empty(),
    }
}

/// The limits that the words of a `go` command from `from` on ask for.
pub fn parse_go_limits(board: &Position, w: &Vec<Vec<char>>, from: usize) -> (l: Limits)
    requires
        board.wf(),
        from <= w@.len(),
    ensures
        reads(*board, text::spelled(w@), from as int, no_orders(), orders_of(l)),
        !l.silent,
        l.protocol == Protocol::Uci,
{
    let ghost p = *board;
    let ghost ws = text::spelled(w@);
    let mut l = Limits::default();
    assert(orders_of(l) == no_orders());
    let mut i: usize = from;
    while i < w.len()
        invariant
            board.wf(),
            from <= i <= w@.len(),
            p == *board,
            ws == text::spelled(w@),
            !l.silent,
            l.protocol == Protocol::Uci,
            forall|b: Orders| #[trigger]
                reads(p, ws, i as int, orders_of(l), b) ==> reads(p, ws, from as int, no_orders(), b),
        decreases w@.len() - i,
    {
        i = read_order(board, w, i, &mut l);
    }
    assert(reads(p, ws, i as int, orders_of(l), orders_of(l)));
    l
}

/// The options of a session.
#[derive(Clone, Copy, Debug, PartialEq, Eq, Structural)]
pub struct Options {
    pub threads: usize,
    pub hash_size: usize,
    pub overhead: u64,
    pub show_wdl: bool,
    pub go_pretty: bool,
    pub pretty_print: bool,
    pub show_currmove: bool,
    pub stdout_isatty: Option<bool>,
    pub stderr_isatty: Option<bool>,
    pub is_frc: bool,
}

impl Options {
    /// Every option lies in its range.
    pub open spec fn wf(self) -> bool {
        1 <= self.threads <= 1024 && 1 <= self.hash_size <= 65536 && self.overhead <= 1000
    }

    /// The defaults.
    pub fn new() -> (o: Options)
        ensures
            o.wf(),
            o == (Options {
                threads: 1,
                hash_size: 16,
                overhead: 10,
                show_wdl: false,
                go_pretty: false,
                pretty_print: false,
                show_currmove: true,
                stdout_isatty: None,
                stderr_isatty: None,
                is_frc: false,
            }),
    {
        Options {
            threads: 1,
            hash_size: 16,
            overhead: 10,
            show_wdl: false,
            go_pretty: false,
            pretty_print: false,
            show_currmove: true,
            stdout_isatty: None,
            stderr_isatty: None,
            is_frc: false,
        }
    }

    /// What a search is to show. Colours are shown unless the output is known not to be a
    /// terminal.
    pub fn display(&self) -> (d: SearchDisplay)
        ensures
            d.show_wdl == self.show_wdl,
            d.go_pretty == self.go_pretty,
            d.pretty_print == self.pretty_print,
            d.show_currmove == self.show_currmove,
            d.use_ansi == (self.stdout_isatty != Some(false)),
    {
        let use_ansi = match self.stdout_isatty {
            Some(b) => b,
            None => true,
        };
        SearchDisplay {
            show_wdl: self.show_wdl,
            go_pretty: self.go_pretty,
            pretty_print: self.pretty_print,
            show_currmove: self.show_currmove,
            use_ansi,
        }
    }
}

/// The options that can be set.
#[derive(Clone, Copy, Debug, PartialEq, Eq, Structural)]
pub enum OptionKey {
    Hash,
    Overhead,
    ShowWdl,
    Chess960,
    ShowCurrMove,
    PrettyPrint,
    Threads,
}

/// The option with this name, its case aside.
pub open spec fn option_key(names: Seq<Seq<char>>) -> Option<OptionKey> {
    let w = text::lowered(names[0]);
    if names.len() != 1 {
        None
    } else if w == "hash"@ {
        Some(OptionKey::Hash)
    } else if w == "overhead"@ {
        Some(OptionKey::Overhead)
    } else if w == "uci_showwdl"@ {
        Some(OptionKey::ShowWdl)
    } else if w == "uci_chess960"@ {
        Some(OptionKey::Chess960)
    } else if w == "uci_showcurrmove"@ {
        Some(OptionKey::ShowCurrMove)
    } else if w == "prettyprint"@ {
        Some(OptionKey::PrettyPrint)
    } else if w == "threads"@ {
        Some(OptionKey::Threads)
    } else {
        None
    }
}

/// [`option_key`].
fn read_option_key(names: &Vec<Vec<char>>) -> (r: Option<OptionKey>)
    ensures
        r == option_key(text::spelled(names@)),
{
    if names.len() != 1 {
        return None;
    }
    let w = &names[0];
    assert(text::spelled(names@)[0] == w@);
    if text::is_lowered(w, "hash") {
        Some(OptionKey::Hash)
    } else if text::is_lowered(w, "overhead") {
        Some(OptionKey::Overhead)
    } else if text::is_lowered(w, "uci_showwdl") {
        Some(OptionKey::ShowWdl)
    } else if text::is_lowered(w, "uci_chess960") {
        Some(OptionKey::Chess960)
    } else if text::is_lowered(w, "uci_showcurrmove") {
        Some(OptionKey::ShowCurrMove)
    } else if text::is_lowered(w, "prettyprint") {
        Some(OptionKey::PrettyPrint)
    } else if text::is_lowered(w, "threads") {
        Some(OptionKey::Threads)
    } else {
        None
    }
}

/// A word that says yes.
pub open spec fn affirms(w: Seq<char>) -> bool {
    let l = text::lowered(w);
    l == "true"@ || l == "t"@ || l == "yes"@ || l == "y"@ || l == "1"@
}

fn is_yes(w: &Vec<char>) -> (r: bool)
    ensures
        r == affirms(w@),
{
    text::is_lowered(w, "true") || text::is_lowered(w, "t") || text::is_lowered(w, "yes") || text::is_lowered(w, "y")
        || text::is_lowered(w, "1")
}

/// A value that says yes.
pub open spec fn holds(values: Seq<Seq<char>>) -> bool {
    values.len() == 1 && affirms(values[0])
}

fn is_true(values: &Vec<Vec<char>>) -> (r: bool)
    ensures
        r == holds(text::spelled(values@)),
{
    if values.len() != 1 {
        return false;
    }
    assert(text::spelled(values@)[0] == values@[0]@);
    is_yes(&values[0])
}

/// The number that a value is.
pub open spec fn amount(values: Seq<Seq<char>>) -> Option<int> {
    if values.len() == 1 {
        number_at(values, 0, 0, longest())
    } else {
        None
    }
}

fn amount_of(values: &Vec<Vec<char>>) -> (r: Option<u64>)
    ensures
        match r {
            Some(x) => amount(text::spelled(values@)) == Some(x as int),
            None => amount(text::spelled(values@)) is None,
        },
{
    if values.len() != 1 {
        return None;
    }
    assert(text::spelled(values@)[0] == values@[0]@);
    text::unsigned_of(&values[0])
}

/// `x` moved into the range from `lo` to `hi`.
pub open spec fn within(x: int, lo: int, hi: int) -> int {
    if x < lo {
        lo
    } else if x > hi {
        hi
    } else {
        x
    }
}

/// [`within`].
pub fn clamped(x: u64, lo: u64, hi: u64) -> (r: u64)
    requires
        lo <= hi,
    ensures
        r == within(x as int, lo as int, hi as int),
{
    if x < lo {
        lo
    } else if x > hi {
        hi
    } else {
        x
    }
}

/// Where the words of a `setoption` command go.
#[derive(Clone, Copy, Debug, PartialEq, Eq, Structural)]
pub enum Field {
    Neither,
    Name,
    Value,
}

/// The words of the name and of the value, from word `i` on.
pub open spec fn name_and_value(
    w: Seq<Seq<char>>,
    i: int,
    f: Field,
    names: Seq<Seq<char>>,
    values: Seq<Seq<char>>,
) -> (Seq<Seq<char>>, Seq<Seq<char>>)
    decreases w.len() - i,
{
    if i < 0 || i >= w.len() {
        (names, values)
    } else if w[i] == "name"@ {
        name_and_value(w, i + 1, Field::Name, names, values)
    } else if w[i] == "value"@ {
        name_and_value(w, i + 1, Field::Value, names, values)
    } else {
        match f {
            Field::Neither => name_and_value(w, i + 1, f, names, values),
            Field::Name => name_and_value(w, i + 1, f, names.push(w[i]), values),
            Field::Value => name_and_value(w, i + 1, f, names, values.push(w[i])),
        }
    }
}

/// A copy of a word.
pub fn copied(w: &Vec<char>) -> (v: Vec<char>)
    ensures
        v@ == w@,
{
    let mut v: Vec<char> = Vec::new();
    let mut i: usize = 0;
    while i < w.len()
        invariant
            i <= w@.len(),
            v@ == w@.take(i as int),
        decreases w@.len() - i,
    {
        v.push(w[i]);
        i = i + 1;
        assert(v@ =~= w@.take(i as int));
    }
    assert(v@ =~= w@);
    v
}

/// [`name_and_value`].
fn split_option(w: &Vec<Vec<char>>, from: usize) -> (r: (Vec<Vec<char>>, Vec<Vec<char>>))
    requires
        from <= w@.len(),
    ensures
        (text::spelled(r.0@), text::spelled(r.1@)) == name_and_value(
            text::spelled(w@),
            from as int,
            Field::Neither,
            Seq::empty(),
            Seq::empty(),
        ),
{
    let ghost ws = text::spelled(w@);
    let mut names: Vec<Vec<char>> = Vec::new();
    let mut values: Vec<Vec<char>> = Vec::new();
    let mut field = Field::Neither;
    let mut i: usize = from;
    proof {
        assert(text::spelled(names@) =~= Seq::empty());
        assert(text::spelled(values@) =~= Seq::empty());
    }
    while i < w.len()
        invariant
            from <= i <= w@.len(),
            ws == text::spelled(w@),
            name_and_value(ws, i as int, field, text::spelled(names@), text::spelled(values@)) == name_and_value(
                ws,
                from as int,
                Field::Neither,
                Seq::empty(),
                Seq::empty(),
            ),
        decreases w@.len() - i,
    {
        assert(ws[i as int] == w@[i as int]@);
        if text::is_word(&w[i], "name") {
            field = Field::Name;
        } else if text::is_word(&w[i], "value") {
            field = Field::Value;
        } else {
            match field {
                Field::Neither => {},
                Field::Name => {
                    let ghost before = names@;
                    names.push(copied(&w[i]));
                    assert(text::spelled(names@) =~= text::spelled(before).push(ws[i as int]));
                },
                Field::Value => {
                    let ghost before = values@;
                    values.push(copied(&w[i]));
                    assert(text::spelled(values@) =~= text::spelled(before).push(ws[i as int]));
                },
            }
        }
        i = i + 1;
    }
    (names, values)
}

/// What an option's change asks of the outside.
#[derive(Clone, Copy, Debug, PartialEq, Eq, Structural)]
pub enum Upkeep {
    Nothing,
    /// The table is to have this size, in megabytes.
    Resize(usize),
    /// The pool is to have this many threads.
    Rethread(usize),
    /// Win, draw and loss figures are on another scale than the scores.
    WarnWdl,
}

/// What setting an option does.
pub open spec fn after_option(o: Options, names: Seq<Seq<char>>, values: Seq<Seq<char>>) -> (Options, Upkeep) {
    match option_key(names) {
        None => (o, Upkeep::Nothing),
        Some(OptionKey::Hash) => match amount(values) {
            Some(x) => {
                let mb = within(x, 1, 65536) as usize;
                (Options { hash_size: mb, ..o }, Upkeep::Resize(mb))
            },
            None => (o, Upkeep::Nothing),
        },
        Some(OptionKey::Overhead) => match amount(values) {
            Some(x) => (Options { overhead: within(x, 0, 1000) as u64, ..o }, Upkeep::Nothing),
            None => (o, Upkeep::Nothing),
        },
        Some(OptionKey::ShowWdl) => (
            Options { show_wdl: holds(values), ..o },
            if holds(values) {
                Upkeep::WarnWdl
            } else {
                Upkeep::Nothing
            },
        ),
        Some(OptionKey::Chess960) => (Options { is_frc: holds(values), ..o }, Upkeep::Nothing),
        Some(OptionKey::ShowCurrMove) => (Options { show_currmove: holds(values), ..o }, Upkeep::Nothing),
        Some(OptionKey::PrettyPrint) => (Options { pretty_print: holds(values), ..o }, Upkeep::Nothing),
        Some(OptionKey::Threads) => {
            let n = within(
                match amount(values) {
                    Some(x) => x,
                    None => 1,
                },
                1,
                1024,
            ) as usize;
            if n == o.threads {
                (o, Upkeep::Nothing)
            } else {
                (Options { threads: n, ..o }, Upkeep::Rethread(n))
            }
        },
    }
}

impl Options {
    /// Sets the option that the words of a `setoption` command name.
    pub fn set(&mut self, w: &Vec<Vec<char>>, from: usize) -> (u: Upkeep)
        requires
            old(self).wf(),
            from <= w@.len(),
        ensures
            final(self).wf(),
            ({
                let nv = name_and_value(text::spelled(w@), from as int, Field::Neither, Seq::empty(), Seq::empty());
                (*final(self), u) == after_option(*old(self), nv.0, nv.1)
            }),
    {
        let (names, values) = split_option(w, from);
        let key = match read_option_key(&names) {
            Some(k) => k,
            None => {
                return Upkeep::Nothing;
            },
        };
        match key {
            OptionKey::Hash => {
                if let Some(x) = amount_of(&values) {
                    let mb: usize = clamped(x, 1, 65536) as usize;
                    self.hash_size = mb;
                    return Upkeep::Resize(mb);
                }
            },
            OptionKey::Overhead => {
                if let Some(x) = amount_of(&values) {
                    self.overhead = clamped(x, 0, 1000);
                }
            },
            OptionKey::ShowWdl => {
                self.show_wdl = is_true(&values);
                if self.show_wdl {
                    return Upkeep::WarnWdl;
                }
            },
            OptionKey::Chess960 => {
                self.is_frc = is_true(&values);
            },
            OptionKey::ShowCurrMove => {
                self.show_currmove = is_true(&values);
            },
            OptionKey::PrettyPrint => {
                self.pretty_print = is_true(&values);
            },
            OptionKey::Threads => {
                let x: u64 = match amount_of(&values) {
                    Some(x) => x,
                    None => 1,
                };
                let n: usize = clamped(x, 1, 1024) as usize;
                if n != self.threads {
                    self.threads = n;
                    return Upkeep::Rethread(n);
                }
            },
        }
        Upkeep::Nothing
    }
}

/// The commands.
#[derive(Clone, Copy, Debug, PartialEq, Eq, Structural)]
pub enum Command {
    Quit,
    Uci,
    IsReady,
    NewGame,
    Place,
    Go,
    Stop,
    SetOption,
    License,
    IsAtty,
    Display,
    Fen,
    Eval,
    Bench,
    Divide,
    Speedtest,
    Genfens,
    GoPretty,
    PrettyPrint,
    Flip,
    Key,
    Help,
    Unknown,
}

/// The command that a word stands for.
pub open spec fn command(w: Seq<char>) -> Command {
    if w == "quit"@ {
        Command::Quit
    } else if w == "uci"@ {
        Command::Uci
    } else if w == "isready"@ {
        Command::IsReady
    } else if w == "ucinewgame"@ {
        Command::NewGame
    } else if w == "position"@ {
        Command::Place
    } else if w == "go"@ {
        Command::Go
    } else if w == "stop"@ {
        Command::Stop
    } else if w == "setoption"@ {
        Command::SetOption
    } else if w == "license"@ {
        Command::License
    } else if w == "isatty"@ {
        Command::IsAtty
    } else if w == "d"@ || w == "display"@ {
        Command::Display
    } else if w == "fen"@ {
        Command::Fen
    } else if w == "eval"@ {
        Command::Eval
    } else if w == "bench"@ {
        Command::Bench
    } else if w == "divide"@ {
        Command::Divide
    } else if w == "speedtest"@ {
        Command::Speedtest
    } else if w == "genfens"@ {
        Command::Genfens
    } else if w == "gopretty"@ {
        Command::GoPretty
    } else if w == "prettyprint"@ || w == "pp"@ {
        Command::PrettyPrint
    } else if w == "flip"@ {
        Command::Flip
    } else if w == "key"@ {
        Command::Key
    } else if w == "help"@ {
        Command::Help
    } else {
        Command::Unknown
    }
}

/// [`command`].
fn read_command(w: &Vec<char>) -> (c: Command)
    ensures
        c == command(w@),
{
    if text::is_word(w, "quit") {
        Command::Quit
    } else if text::is_word(w, "uci") {
        Command::Uci
    } else if text::is_word(w, "isready") {
        Command::IsReady
    } else if text::is_word(w, "ucinewgame") {
        Command::NewGame
    } else if text::is_word(w, "position") {
        Command::Place
    } else if text::is_word(w, "go") {
        Command::Go
    } else if text::is_word(w, "stop") {
        Command::Stop
    } else if text::is_word(w, "setoption") {
        Command::SetOption
    } else if text::is_word(w, "license") {
        Command::License
    } else if text::is_word(w, "isatty") {
        Command::IsAtty
    } else if text::is_word(w, "d") || text::is_word(w, "display") {
        Command::Display
    } else if text::is_word(w, "fen") {
        Command::Fen
    } else if text::is_word(w, "eval") {
        Command::Eval
    } else if text::is_word(w, "bench") {
        Command::Bench
    } else if text::is_word(w, "divide") {
        Command::Divide
    } else if text::is_word(w, "speedtest") {
        Command::Speedtest
    } else if text::is_word(w, "genfens") {
        Command::Genfens
    } else if text::is_word(w, "gopretty") {
        Command::GoPretty
    } else if text::is_word(w, "prettyprint") || text::is_word(w, "pp") {
        Command::PrettyPrint
    } else if text::is_word(w, "flip") {
        Command::Flip
    } else if text::is_word(w, "key") {
        Command::Key
    } else if text::is_word(w, "help") {
        Command::Help
    } else {
        Command::Unknown
    }
}

/// What a command asks of the outside.
pub enum UciAction {
    Nothing,
    /// The search is to end, and the session too.
    Quit,
    /// The engine, its author and its options are to be named.
    Identify,
    Ready,
    /// The search is to end; what was learned of moves and the table are to be cleared.
    NewGame,
    /// A position was set up: the table ages. The place of the first word that is no legal
    /// move.
    Placed(Option<usize>),
    BadFen(FenError),
    /// A search is to start from the board, whatever runs to end first.
    Go(Limits),
    Stop,
    Upkeep(Upkeep),
    License,
    Display,
    Fen,
    Eval(DetailedEval),
    Bench(u64),
    Divide(u64),
    Speedtest,
    /// Training positions are to be made; the words behind the command say which.
    Genfens(Vec<Vec<char>>),
    GoPretty(bool),
    PrettyPrint(bool),
    /// The side now to move.
    Flipped(Color),
    /// The side to move is in check, and cannot pass.
    CannotFlip,
    Key(u64),
    /// Whether in colours.
    Help(bool),
}

/// A session.
pub struct UciState {
    pub game: Game,
    /// The initial position.
    pub start: Position,
    pub options: Options,
}

/// Whose terminal an `isatty` command speaks of, and what it says.
pub open spec fn atty(o: Options, w: Seq<Seq<char>>) -> Options {
    let out = w.len() > 1 && text::lowered(w[1]) == "stdout"@;
    let err = w.len() > 1 && text::lowered(w[1]) == "stderr"@;
    let i = if out || err {
        2int
    } else {
        1
    };
    if i < w.len() {
        let b = Some(affirms(w[i]));
        Options {
            stdout_isatty: if err {
                o.stdout_isatty
            } else {
                b
            },
            stderr_isatty: if out {
                o.stderr_isatty
            } else {
                b
            },
            ..o
        }
    } else {
        o
    }
}

/// The place of the word `moves` from `i` on, or the end.
pub open spec fn moves_at(w: Seq<Seq<char>>, i: int) -> int
    decreases w.len() - i,
{
    if i < 0 || i >= w.len() {
        w.len() as int
    } else if w[i] == "moves"@ {
        i
    } else {
        moves_at(w, i + 1)
    }
}

/// Where the moves begin if `moves` stands at word `i`, and the end otherwise.
pub open spec fn moves_from(w: Seq<Seq<char>>, i: int) -> int {
    if 0 <= i < w.len() && w[i] == "moves"@ {
        i + 1
    } else {
        w.len() as int
    }
}

impl UciState {
    pub open spec fn wf(self) -> bool {
        self.game.wf() && self.start.wf() && self.options.wf()
    }

    /// The game was set up from `base`, and the words from `from` on were played.
    pub open spec fn set_up(self, base: Position, w: Seq<Seq<char>>, from: int, r: Option<usize>) -> bool {
        game::played(
            Position { is_frc: self.options.is_frc, ..base },
            seq![base.hash],
            self.game,
            w,
            from,
            r,
        )
    }

    /// A session that starts from the initial position.
    pub fn new(start: &Position) -> (s: UciState)
        requires
            start.wf(),
        ensures
            s.wf(),
            s.start == *start,
            s.game.board == *start,
            s.game.history@ == seq![start.hash],
            s.options == (Options {
                threads: 1,
                hash_size: 16,
                overhead: 10,
                show_wdl: false,
                go_pretty: false,
                pretty_print: false,
                show_currmove: true,
                stdout_isatty: None,
                stderr_isatty: None,
                is_frc: false,
            }),
    {
        UciState { game: Game::new(start), start: *start, options: Options::new() }
    }

    /// Sets up a position and plays moves.
    fn cmd_position(&mut self, w: &Vec<Vec<char>>) -> (a: UciAction)
        requires
            old(self).wf(),
        ensures
            final(self).wf(),
            final(self).start == old(self).start,
            final(self).options == old(self).options,
            final(self).positioned(*old(self), text::spelled(w@), a),
    {
        let ghost ws = text::spelled(w@);
        if w.len() < 2 {
            return UciAction::Nothing;
        }
        assert(ws[1] == w@[1]@);
        if text::is_word(&w[1], "startpos") {
            let frc = self.options.is_frc;
            self.game.load(&self.start, frc);
            return self.play_from(w, 2);
        }
        if text::is_word(&w[1], "fen") {
            let e: usize = find_moves(w, 2);
            let words = part(w, 2, e);
            match Position::try_from_words(&words) {
                Ok(board) => {
                    let frc = self.options.is_frc;
                    self.game.load(&board, frc);
                    let a = self.play_from(w, e);
                    proof {
                        assert(fen::described(ws.subrange(2, e as int), board));
                        assert(self.set_up(board, ws, moves_from(ws, e as int), a->Placed_0));
                    }
                    return a;
                },
                Err(x) => {
                    return UciAction::BadFen(x);
                },
            }
        }
        UciAction::Nothing
    }

    /// What a `position` command comes to.
    pub open spec fn positioned(self, o: UciState, w: Seq<Seq<char>>, a: UciAction) -> bool {
        if w.len() >= 2 && w[1] == "startpos"@ {
            a is Placed && self.set_up(o.start, w, moves_from(w, 2), a->Placed_0)
        } else if w.len() >= 2 && w[1] == "fen"@ {
            let e = moves_at(w, 2);
            match fen::fault(w.subrange(2, e)) {
                Some(x) => a == UciAction::BadFen(x) && self.game == o.game,
                None => a is Placed && exists|b: Position| #[trigger]
                    self.set_up(b, w, moves_from(w, e), a->Placed_0) && b.wf() && fen::described(w.subrange(2, e), b),
            }
        } else {
            a is Nothing && self.game == o.game
        }
    }

    /// Plays the moves behind the word `moves`, if it stands at `i`.
    fn play_from(&mut self, w: &Vec<Vec<char>>, i: usize) -> (a: UciAction)
        requires
            old(self).wf(),
            i <= w@.len(),
        ensures
            final(self).wf(),
            final(self).start == old(self).start,
            final(self).options == old(self).options,
            a is Placed,
            game::played(
                old(self).game.board,
                old(self).game.history@,
                final(self).game,
                text::spelled(w@),
                moves_from(text::spelled(w@), i as int),
                a->Placed_0,
            ),
    {
        let ghost ws = text::spelled(w@);
        if i < w.len() {
            assert(ws[i as int] == w@[i as int]@);
            if text::is_word(&w[i], "moves") {
                return UciAction::Placed(self.game.play_words(w, i + 1));
            }
        }
        proof {
            game::lemma_nothing_played(self.game, ws);
        }
        UciAction::Placed(None)
    }

    /// Notes which outputs are terminals.
    fn cmd_isatty(&mut self, w: &Vec<Vec<char>>)
        requires
            old(self).wf(),
        ensures
            final(self).wf(),
            final(self).start == old(self).start,
            final(self).game == old(self).game,
            final(self).options == atty(old(self).options, text::spelled(w@)),
    {
        let ghost ws = text::spelled(w@);
        if w.len() < 2 {
            return;
        }
        assert(ws[1] == w@[1]@);
        let out = text::is_lowered(&w[1], "stdout");
        let err = text::is_lowered(&w[1], "stderr");
        let i: usize = if out || err {
            2
        } else {
            1
        };
        if i < w.len() {
            assert(ws[i as int] == w@[i as int]@);
            let b = is_yes(&w[i]);
            if !err {
                self.options.stdout_isatty = Some(b);
            }
            if !out {
                self.options.stderr_isatty = Some(b);
            }
            proof {
                reveal_strlit("stdout");
                reveal_strlit("stderr");
                if out && err {
                    assert("stdout"@[3] == "stderr"@[3]);
                }
            }
        }
    }

    /// The session and the words of a command, to what it asks for.
    pub open spec fn answers(self, o: UciState, w: Seq<Seq<char>>, a: UciAction) -> bool {
        let same = self.game == o.game && self.options == o.options;
        if w.len() == 0 {
            same && a is Nothing
        } else {
            match command(w[0]) {
                Command::Quit => same && a is Quit,
                Command::Uci => {
                    &&& self.game == o.game
                    &&& self.options == Options { pretty_print: false, ..o.options }
                    &&& a is Identify
                },
                Command::IsReady => same && a is Ready,
                Command::NewGame => {
                    &&& self.game.board == Position { is_frc: o.options.is_frc, ..o.start }
                    &&& self.game.history@ == seq![o.start.hash]
                    &&& self.options == o.options
                    &&& a is NewGame
                },
                Command::Place => self.options == o.options && self.positioned(o, w, a),
                Command::Go => same && match a {
                    UciAction::Go(l) => reads(o.game.board, w, 1, no_orders(), orders_of(l)) && !l.silent && l.protocol
                        == Protocol::Uci,
                    _ => false,
                },
                Command::Stop => same && a is Stop,
                Command::SetOption => {
                    let nv = name_and_value(w, 1, Field::Neither, Seq::empty(), Seq::empty());
                    &&& self.game == o.game
                    &&& a is Upkeep
                    &&& (self.options, a->Upkeep_0) == after_option(o.options, nv.0, nv.1)
                },
                Command::License => same && a is License,
                Command::IsAtty => self.game == o.game && self.options == atty(o.options, w) && a is Nothing,
                Command::Display => same && a is Display,
                Command::Fen => same && a is Fen,
                Command::Eval => same && a is Eval && eval::explains(o.game.board, o.game.accumulator, a->Eval_0),
                Command::Bench => same && a == UciAction::Bench(value_at(w, 1, 0, longest()) as u64),
                Command::Divide => same && a == UciAction::Divide(value_at(w, 1, 0, longest()) as u64),
                Command::Speedtest => same && a is Speedtest,
                Command::Genfens => same && match a {
                    UciAction::Genfens(rest) => text::spelled(rest@) == w.skip(1),
                    _ => false,
                },
                Command::GoPretty => {
                    &&& self.game == o.game
                    &&& self.options == Options { go_pretty: !o.options.go_pretty, ..o.options }
                    &&& a == UciAction::GoPretty(!o.options.go_pretty)
                },
                Command::PrettyPrint => {
                    &&& self.game == o.game
                    &&& self.options == Options { pretty_print: !o.options.pretty_print, ..o.options }
                    &&& a == UciAction::PrettyPrint(!o.options.pretty_print)
                },
                Command::Flip => {
                    &&& self.options == o.options
                    &&& self.game.history@ == o.game.history@
                    &&& if game::checked(o.game.board) {
                        self.game.board == o.game.board && a is CannotFlip
                    } else {
                        game::flipped(o.game.board, self.game.board) && a == UciAction::Flipped(o.game.board.stm.other())
                    }
                },
                Command::Key => same && a == UciAction::Key(o.game.board.hash),
                Command::Help => same && a == UciAction::Help(o.options.stdout_isatty != Some(false)),
                Command::Unknown => same && a is Nothing,
            }
        }
    }

    /// Carries out a command line. What cannot be done here comes back as an action.
    pub fn process_command(&mut self, line: &str) -> (a: UciAction)
        requires
            old(self).wf(),
        ensures
            final(self).wf(),
            final(self).start == old(self).start,
            final(self).answers(*old(self), text::words(line@), a),
    {
        self.process_words(&text::words_of(&text::chars_of(line)))
    }

    /// Carries out the words of a command line.
    fn process_words(&mut self, w: &Vec<Vec<char>>) -> (a: UciAction)
        requires
            old(self).wf(),
        ensures
            final(self).wf(),
            final(self).start == old(self).start,
            final(self).answers(*old(self), text::spelled(w@), a),
    {
        if w.len() == 0 {
            return UciAction::Nothing;
        }
        assert(text::spelled(w@)[0] == w@[0]@);
        match read_command(&w[0]) {
            Command::Quit => UciAction::Quit,
            Command::Uci => {
                self.options.pretty_print = false;
                UciAction::Identify
            },
            Command::IsReady => UciAction::Ready,
            Command::NewGame => {
                let frc = self.options.is_frc;
                self.game.load(&self.start, frc);
                UciAction::NewGame
            },
            Command::Place => self.cmd_position(w),
            Command::Go => UciAction::Go(parse_go_limits(&self.game.board, w, 1)),
            Command::Stop => UciAction::Stop,
            Command::SetOption => UciAction::Upkeep(self.options.set(w, 1)),
            Command::License => UciAction::License,
            Command::IsAtty => {
                self.cmd_isatty(w);
                UciAction::Nothing
            },
            Command::Display => UciAction::Display,
            Command::Fen => UciAction::Fen,
            Command::Eval => UciAction::Eval(detailed_eval(&self.game.board, &self.game.accumulator)),
            Command::Bench => UciAction::Bench(long_at(w, 1).0),
            Command::Divide => UciAction::Divide(long_at(w, 1).0),
            Command::Speedtest => UciAction::Speedtest,
            Command::Genfens => UciAction::Genfens(text::words_behind(w, 1)),
            Command::GoPretty => {
                self.options.go_pretty = !self.options.go_pretty;
                UciAction::GoPretty(self.options.go_pretty)
            },
            Command::PrettyPrint => {
                self.options.pretty_print = !self.options.pretty_print;
                UciAction::PrettyPrint(self.options.pretty_print)
            },
            Command::Flip => if self.game.flip() {
                UciAction::Flipped(self.game.board.stm)
            } else {
                UciAction::CannotFlip
            },
            Command::Key => UciAction::Key(self.game.board.hash),
            Command::Help => UciAction::Help(self.options.display().use_ansi),
            Command::Unknown => UciAction::Nothing,
        }
    }
}

/// [`moves_at`].
fn find_moves(w: &Vec<Vec<char>>, from: usize) -> (e: usize)
    requires
        from <= w@.len(),
    ensures
        e == moves_at(text::spelled(w@), from as int),
        from <= e <= w@.len(),
{
    let ghost ws = text::spelled(w@);
    let mut i: usize = from;
    while i < w.len()
        invariant
            from <= i <= w@.len(),
            ws == text::spelled(w@),
            moves_at(ws, i as int) == moves_at(ws, from as int),
        decreases w@.len() - i,
    {
        assert(ws[i as int] == w@[i as int]@);
        if text::is_word(&w[i], "moves") {
            return i;
        }
        i = i + 1;
    }
    i
}

/// The words from `i` up to `j`.
pub fn part(w: &Vec<Vec<char>>, i: usize, j: usize) -> (v: Vec<Vec<char>>)
    requires
        i <= j <= w@.len(),
    ensures
        text::spelled(v@) == text::spelled(w@).subrange(i as int, j as int),
{
    let mut v: Vec<Vec<char>> = Vec::new();
    let mut k: usize = i;
    assert(text::spelled(v@) =~= text::spelled(w@).subrange(i as int, k as int));
    while k < j
        invariant
            i <= k <= j <= w@.len(),
            text::spelled(v@) == text::spelled(w@).subrange(i as int, k as int),
        decreases j - k,
    {
        let ghost before = v@;
        v.push(copied(&w[k]));
        assert(text::spelled(v@) =~= text::spelled(before).push(w@[k as int]@));
        k = k + 1;
        assert(text::spelled(v@) =~= text::spelled(w@).subrange(i as int, k as int));
    }
    v
}

/// Each key of `go` has its own word, and no other word stands for it.
pub proof fn law_each_key_has_its_word(w: Seq<char>)
    ensures
        go_key(w) == Some(GoKey::Wtime) <==> w == "wtime"@,
        go_key(w) == Some(GoKey::Btime) <==> w == "btime"@,
        go_key(w) == Some(GoKey::Winc) <==> w == "winc"@,
        go_key(w) == Some(GoKey::Binc) <==> w == "binc"@,
        go_key(w) == Some(GoKey::Movestogo) <==> w == "movestogo"@,
        go_key(w) == Some(GoKey::Depth) <==> w == "depth"@,
        go_key(w) == Some(GoKey::Softnodes) <==> w == "softnodes"@,
        go_key(w) == Some(GoKey::Movetime) <==> w == "movetime"@,
        go_key(w) == Some(GoKey::Infinite) <==> w == "infinite"@,
        go_key(w) == Some(GoKey::Mate) <==> w == "mate"@,
        go_key(w) == Some(GoKey::Perft) <==> w == "perft"@,
        go_key(w) == Some(GoKey::Searchmoves) <==> w == "searchmoves"@,
        go_key(w) == Some(GoKey::Nodes) <==> w == "nodes"@ || w == "hardnodes"@,
{
    reveal_strlit("wtime");
    reveal_strlit("btime");
    reveal_strlit("winc");
    reveal_strlit("binc");
    reveal_strlit("movestogo");
    reveal_strlit("depth");
    reveal_strlit("softnodes");
    reveal_strlit("hardnodes");
    reveal_strlit("nodes");
    reveal_strlit("movetime");
    reveal_strlit("infinite");
    reveal_strlit("mate");
    reveal_strlit("perft");
    reveal_strlit("searchmoves");
    assert("wtime"@.len() == 5);
    assert("btime"@.len() == 5);
    assert("winc"@.len() == 4);
    assert("binc"@.len() == 4);
    assert("movestogo"@.len() == 9);
    assert("depth"@.len() == 5);
    assert("softnodes"@.len() == 9);
    assert("hardnodes"@.len() == 9);
    assert("nodes"@.len() == 5);
    assert("movetime"@.len() == 8);
    assert("infinite"@.len() == 8);
    assert("mate"@.len() == 4);
    assert("perft"@.len() == 5);
    assert("searchmoves"@.len() == 11);
    assert("binc"@[0] != "mate"@[0]);
    assert("btime"@[0] != "depth"@[0]);
    assert("btime"@[0] != "nodes"@[0]);
    assert("btime"@[0] != "perft"@[0]);
    assert("depth"@[0] != "nodes"@[0]);
    assert("depth"@[0] != "perft"@[0]);
    assert("movestogo"@[0] != "hardnodes"@[0]);
    assert("movestogo"@[0] != "softnodes"@[0]);
    assert("movetime"@[0] != "infinite"@[0]);
    assert("nodes"@[0] != "perft"@[0]);
    assert("softnodes"@[0] != "hardnodes"@[0]);
    assert("winc"@[0] != "binc"@[0]);
    assert("winc"@[0] != "mate"@[0]);
    assert("wtime"@[0] != "btime"@[0]);
    assert("wtime"@[0] != "depth"@[0]);
    assert("wtime"@[0] != "nodes"@[0]);
    assert("wtime"@[0] != "perft"@[0]);
}

/// Each option has its own name, in whatever case, and nothing else does for it.
pub proof fn law_each_option_has_its_name(n: Seq<char>, names: Seq<Seq<char>>)
    ensures
        option_key(seq![n]) == Some(OptionKey::Hash) <==> text::lowered(n) == "hash"@,
        option_key(seq![n]) == Some(OptionKey::Overhead) <==> text::lowered(n) == "overhead"@,
        option_key(seq![n]) == Some(OptionKey::ShowWdl) <==> text::lowered(n) == "uci_showwdl"@,
        option_key(seq![n]) == Some(OptionKey::Chess960) <==> text::lowered(n) == "uci_chess960"@,
        option_key(seq![n]) == Some(OptionKey::ShowCurrMove) <==> text::lowered(n) == "uci_showcurrmove"@,
        option_key(seq![n]) == Some(OptionKey::PrettyPrint) <==> text::lowered(n) == "prettyprint"@,
        option_key(seq![n]) == Some(OptionKey::Threads) <==> text::lowered(n) == "threads"@,
        names.len() != 1 ==> option_key(names) is None,
{
    reveal_strlit("hash");
    reveal_strlit("overhead");
    reveal_strlit("uci_showwdl");
    reveal_strlit("uci_chess960");
    reveal_strlit("uci_showcurrmove");
    reveal_strlit("prettyprint");
    reveal_strlit("threads");
    assert("hash"@.len() == 4);
    assert("overhead"@.len() == 8);
    assert("uci_showwdl"@.len() == 11);
    assert("uci_chess960"@.len() == 12);
    assert("uci_showcurrmove"@.len() == 16);
    assert("prettyprint"@.len() == 11);
    assert("threads"@.len() == 7);
    assert("uci_showwdl"@[0] != "prettyprint"@[0]);
    assert(seq![n][0] == n);
}

/// A key takes the number behind it and nothing else changes, whatever the number is.
pub proof fn law_a_key_takes_the_number_behind_it(p: Position, w: Seq<Seq<char>>, a: Orders, b: Orders, x: u64)
    requires
        w.len() == 2,
        text::unsigned(w[1]) == Some(x as int),
        reads(p, w, 0, a, b),
    ensures
        w[0] == "wtime"@ ==> b == (Orders { wtime: x, ..a }),
        w[0] == "btime"@ ==> b == (Orders { btime: x, ..a }),
        w[0] == "winc"@ ==> b == (Orders { winc: x, ..a }),
        w[0] == "binc"@ ==> b == (Orders { binc: x, ..a }),
        w[0] == "movestogo"@ ==> b == (Orders { movestogo: x, ..a }),
        w[0] == "movetime"@ ==> b == (Orders { movetime: x, ..a }),
        w[0] == "nodes"@ ==> b == (Orders { nodes: x, ..a }),
        w[0] == "softnodes"@ ==> b == (Orders { softnodes: x, ..a }),
        w[0] == "perft"@ && x <= 255 ==> b == (Orders { perft: Some(x as u8), ..a }),
{
    law_each_key_has_its_word(w[0]);
    reveal_with_fuel(reads, 3);
}

/// A depth or a mate may be negative; an unlimited search is one from then on.
pub proof fn law_depth_and_mate_take_signed_numbers(p: Position, w: Seq<Seq<char>>, a: Orders, b: Orders, x: i32)
    requires
        w.len() == 2,
        text::signed(w[1]) == Some(x as int),
        reads(p, w, 0, a, b),
    ensures
        w[0] == "depth"@ ==> b == (Orders { depth: x, ..a }),
        w[0] == "mate"@ ==> b == (Orders { mate: Some(x), ..a }),
        w[0] == "infinite"@ && go_key(w[1]) is None ==> b == (Orders { infinite: true, ..a }),
{
    law_each_key_has_its_word(w[0]);
    reveal_with_fuel(reads, 3);
}

/// A number is taken where it lies in its range, and reading then goes on behind it; else it is
/// left to be read as a key.
pub proof fn law_numbers_are_taken_in_their_range(w: Seq<Seq<char>>, i: int, lo: int, hi: int)
    requires
        0 <= i < w.len(),
        lo <= 0 <= hi,
    ensures
        lo <= value_at(w, i, lo, hi) <= hi,
        i <= behind(w, i, lo, hi) <= i + 1,
        text::unsigned(w[i]) matches Some(x) ==> (x <= hi && lo == 0 ==> value_at(w, i, lo, hi) == x && behind(w, i, lo, hi) == i
            + 1),
        text::unsigned(w[i]) is None && text::signed(w[i]) is None ==> value_at(w, i, lo, hi) == 0 && behind(w, i, lo, hi) == i,
        text::signed(w[i]) matches Some(x) ==> (lo < 0 && lo <= x <= hi ==> value_at(w, i, lo, hi) == x && behind(w, i, lo, hi)
            == i + 1),
        text::signed(w[i]) matches Some(x) ==> (x > hi || x < lo ==> number_at(w, i, lo, hi) is None),
{
    let s = w[i];
    lemma_unsigned_is_natural(s);
    if s.len() > 0 && s[0] == '-' {
        lemma_minus_is_no_number(s);
    }
}

/// A word that begins with a minus sign is no unsigned number.
proof fn lemma_minus_is_no_number(s: Seq<char>)
    requires
        s.len() > 0,
        s[0] == '-',
    ensures
        text::unsigned(s) is None,
{
    text::law_numbers_are_made_of_digits(s, 0, '0');
}

/// A `setoption` command with one word for the name and one for the value sets the option of that
/// name to that value.
pub proof fn law_name_and_value_stand_behind_their_words(n: Seq<char>, v: Seq<char>)
    requires
        n != "name"@ && n != "value"@,
        v != "name"@ && v != "value"@,
    ensures
        name_and_value(seq!["setoption"@, "name"@, n, "value"@, v], 1, Field::Neither, Seq::empty(), Seq::empty()) == (
            seq![n],
            seq![v],
        ),
{
    reveal_strlit("name");
    reveal_strlit("value");
    assert("name"@.len() == 4 && "value"@.len() == 5);
    let w = seq!["setoption"@, "name"@, n, "value"@, v];
    let none = Seq::<Seq<char>>::empty();
    assert(name_and_value(w, 5, Field::Value, seq![n], seq![v]) == (seq![n], seq![v]));
    assert(none.push(v) =~= seq![v]);
    assert(name_and_value(w, 4, Field::Value, seq![n], none) == (seq![n], seq![v]));
    assert(name_and_value(w, 3, Field::Name, seq![n], none) == (seq![n], seq![v]));
    assert(none.push(n) =~= seq![n]);
    assert(name_and_value(w, 2, Field::Name, none, none) == (seq![n], seq![v]));
}

/// Setting an option keeps all options in their ranges and changes none but the one that is named;
/// a number in range is taken as it is, one beyond is moved to the end of the range, and what is
/// no number changes nothing but the number of threads, which it makes one.
pub proof fn law_an_option_changes_itself_alone(o: Options, n: Seq<char>, v: Seq<char>)
    requires
        o.wf(),
    ensures
        ({
            let q = after_option(o, seq![n], seq![v]).0;
            let name = text::lowered(n);
            &&& q.wf()
            &&& name != "hash"@ ==> q.hash_size == o.hash_size
            &&& name != "threads"@ ==> q.threads == o.threads
            &&& name != "overhead"@ ==> q.overhead == o.overhead
            &&& name != "uci_showwdl"@ ==> q.show_wdl == o.show_wdl
            &&& name != "uci_chess960"@ ==> q.is_frc == o.is_frc
            &&& name != "uci_showcurrmove"@ ==> q.show_currmove == o.show_currmove
            &&& name != "prettyprint"@ ==> q.pretty_print == o.pretty_print
            &&& name == "uci_showwdl"@ ==> q.show_wdl == affirms(v)
            &&& name == "uci_chess960"@ ==> q.is_frc == affirms(v)
            &&& name == "uci_showcurrmove"@ ==> q.show_currmove == affirms(v)
            &&& name == "prettyprint"@ ==> q.pretty_print == affirms(v)
            &&& q.go_pretty == o.go_pretty && q.stdout_isatty == o.stdout_isatty && q.stderr_isatty == o.stderr_isatty
            &&& text::unsigned(v) is None ==> q.hash_size == o.hash_size && q.overhead == o.overhead
            &&& text::unsigned(v) is None && name == "threads"@ ==> q.threads == 1
            &&& text::unsigned(v) matches Some(x) ==> {
                &&& name == "hash"@ && 1 <= x <= 65536 ==> q.hash_size == x
                &&& name == "hash"@ && 65536 < x <= u64::MAX ==> q.hash_size == 65536
                &&& name == "threads"@ && 1 <= x <= 1024 ==> q.threads == x
                &&& name == "threads"@ && 1024 < x <= u64::MAX ==> q.threads == 1024
                &&& name == "overhead"@ && x <= 1000 ==> q.overhead == x
                &&& name == "overhead"@ && 1000 < x <= u64::MAX ==> q.overhead == 1000
            }
        }),
{
    law_each_option_has_its_name(n, seq![n]);
    if text::unsigned(v) is Some {
        lemma_unsigned_is_natural(v);
    }
}

/// An unsigned number is at least zero.
proof fn lemma_unsigned_is_natural(s: Seq<char>)
    ensures
        text::unsigned(s) matches Some(x) ==> x >= 0,
{
    text::lemma_number_is_natural(s);
    if s.len() > 0 {
        text::lemma_number_is_natural(s.skip(1));
    }
}

/// The table is resized to what the option says, threads are replaced where their number changes,
/// and no other option asks for work.
pub proof fn law_options_ask_for_their_upkeep(o: Options, n: Seq<char>, v: Seq<char>)
    requires
        o.wf(),
    ensures
        ({
            let (q, u) = after_option(o, seq![n], seq![v]);
            &&& u matches Upkeep::Resize(mb) ==> mb == q.hash_size && text::lowered(n) == "hash"@
            &&& u matches Upkeep::Rethread(k) ==> k == q.threads && k != o.threads
            &&& q.threads != o.threads ==> u == Upkeep::Rethread(q.threads)
            &&& q.hash_size != o.hash_size ==> u == Upkeep::Resize(q.hash_size)
        }),
{
}

/// Telling of one terminal leaves the other alone, and telling of neither tells of both.
pub proof fn law_terminals_are_told_apart(o: Options, w: Seq<Seq<char>>)
    requires
        w.len() >= 2,
    ensures
        text::lowered(w[1]) == "stdout"@ ==> atty(o, w).stderr_isatty == o.stderr_isatty,
        text::lowered(w[1]) == "stderr"@ ==> atty(o, w).stdout_isatty == o.stdout_isatty,
        text::lowered(w[1]) == "stdout"@ && w.len() > 2 ==> atty(o, w).stdout_isatty == Some(affirms(w[2])),
        text::lowered(w[1]) == "stderr"@ && w.len() > 2 ==> atty(o, w).stderr_isatty == Some(affirms(w[2])),
        text::lowered(w[1]) != "stdout"@ && text::lowered(w[1]) != "stderr"@ ==> atty(o, w).stdout_isatty == Some(affirms(w[1]))
            && atty(o, w).stderr_isatty == Some(affirms(w[1])),
{
    reveal_strlit("stdout");
    reveal_strlit("stderr");
    assert("stdout"@[3] != "stderr"@[3]);
}

/// The moves begin behind the first word `moves`.
pub proof fn law_moves_begin_behind_their_word(w: Seq<Seq<char>>, i: int)
    requires
        0 <= i <= w.len(),
    ensures
        i <= moves_at(w, i) <= w.len(),
        moves_at(w, i) < w.len() ==> w[moves_at(w, i)] == "moves"@ && moves_from(w, moves_at(w, i)) == moves_at(w, i) + 1,
        forall|k: int| i <= k < moves_at(w, i) ==> #[trigger] w[k] != "moves"@,
        moves_at(w, i) == w.len() ==> moves_from(w, moves_at(w, i)) == w.len(),
    decreases w.len() - i,
{
    if i < w.len() && w[i] != "moves"@ {
        law_moves_begin_behind_their_word(w, i + 1);
    }
}

/// Yes is said by a word that means it, in whatever case, and by a single one.
pub proof fn law_yes_is_said_in_one_word(a: Seq<char>, b: Seq<char>)
    requires
        text::lowered(a) == text::lowered(b),
    ensures
        affirms(a) == affirms(b),
        holds(seq![a]) == affirms(a),
        !holds(seq![a, b]) && !holds(Seq::empty()),
        a.len() == 0 || a.len() == 2 || a.len() > 4 ==> !affirms(a),
        affirms(a) && a.len() == 1 ==> a[0] == 't' || a[0] == 'T' || a[0] == 'y' || a[0] == 'Y' || a[0] == '1',
{
    reveal_strlit("true");
    reveal_strlit("t");
    reveal_strlit("yes");
    reveal_strlit("y");
    reveal_strlit("1");
    assert(text::lowered(a).len() == a.len());
    assert("true"@.len() == 4 && "t"@.len() == 1 && "yes"@.len() == 3 && "y"@.len() == 1 && "1"@.len() == 1);
    if a.len() == 1 {
        assert(text::lowered(a)[0] == text::lower(a[0]));
        let c = a[0];
        if 'A' <= c && c <= 'Z' {
            assert(65 <= c as int <= 90);
            assert(97 <= text::lower(c) as int == c as int + 32);
        }
    }
}

/// Limits ask for what they hold, each clock for its own side.
pub proof fn law_limits_ask_for_what_they_hold(l: Limits)
    ensures
        orders_of(l).wtime == l.wtime && orders_of(l).btime == l.btime,
        orders_of(l).winc == l.winc && orders_of(l).binc == l.binc,
        orders_of(l).movestogo == l.movestogo && orders_of(l).movetime == l.movetime,
        orders_of(l).depth == l.depth && orders_of(l).nodes == l.nodes && orders_of(l).softnodes == l.softnodes,
        orders_of(l).infinite == l.infinite && orders_of(l).mate == l.mate && orders_of(l).perft == l.perft,
        orders_of(l).searchmoves == l.searchmoves@,
{
}

/// A game is set up from the initial position or from the one that is described, and where
/// neither is named nothing changes.
pub proof fn law_positions_are_set_up_as_told(s: UciState, o: UciState, w: Seq<Seq<char>>, a: UciAction)
    requires
        s.positioned(o, w, a),
    ensures
        w.len() == 1 ==> a is Nothing && s.game == o.game,
        w == seq!["position"@, "startpos"@] ==> a is Placed && s.game.board == (Position {
            is_frc: s.options.is_frc,
            ..o.start
        }) && s.game.history@ == seq![o.start.hash],
        w.len() >= 2 && w[1] == "fen"@ && w[1] != "startpos"@ && fen::fault(w.subrange(2, moves_at(w, 2))) is Some ==> a is BadFen
            && s.game == o.game,
{
    if w == seq!["position"@, "startpos"@] {
        let b = Position { is_frc: s.options.is_frc, ..o.start };
        assert(w[1] == "startpos"@);
        let ms = choose|ms: Seq<Move>|
            {
                &&& #[trigger] line::reached(b, ms, s.game.board)
                &&& game::spelled_out(w, moves_from(w, 2), ms, b.is_frc)
                &&& s.game.history@.len() == seq![o.start.hash].len() + ms.len()
                &&& s.game.history@.take(seq![o.start.hash].len() as int) == seq![o.start.hash]
            };
        assert(ms.len() == 0);
        reveal(line::reached);
        assert(s.game.history@ =~= s.game.history@.take(1));
    }
}

} // verus!
