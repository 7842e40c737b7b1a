//! The XBoard protocol: what a command does to the session, and what is to be done outside.
//!
//! The mode says when to search: a normal session searches on the engine's turn, a forced
//! one only verifies the moves it is fed, and an analysing one searches until told to stop.

use vstd::prelude::*;

use crate::chess::fen::{self, FenError};
use crate::chess::moves::Move;
use crate::chess::position::Position;
use crate::chess::types::Color;
use crate::engine::config::{Limits, Protocol};
use crate::engine::line;
use crate::protocols::game::{self, Game};
use crate::protocols::notation;
use crate::protocols::uci::{self, clamped, copied, part};
use crate::text;

verus! {

/// When the engine searches.
#[derive(Clone, Copy, Debug, PartialEq, Eq, Structural)]
pub enum Mode {
    /// On its turn.
    Normal,
    /// Never.
    Force,
    /// Always.
    Analyze,
}

/// The commands.
#[derive(Clone, Copy, Debug, PartialEq, Eq, Structural)]
pub enum Command {
    Protocol,
    Protover,
    New,
    Force,
    Go,
    Analyze,
    Exit,
    White,
    Black,
    Level,
    St,
    Sd,
    Nps,
    Time,
    Otim,
    Ping,
    SetBoard,
    Outcome,
    Adjust,
    Memory,
    Cores,
    UserMove,
    Feature,
    Quit,
    Other,
}

/// The command that a word stands for.
pub open spec fn command(w: Seq<char>) -> Command {
    if w == "xboard"@ {
        Command::Protocol
    } else if w == "protover"@ {
        Command::Protover
    } else if w == "new"@ {
        Command::New
    } else if w == "force"@ {
        Command::Force
    } else if w == "go"@ || w == "playother"@ {
        Command::Go
    } else if w == "analyze"@ {
        Command::Analyze
    } else if w == "exit"@ {
        Command::Exit
    } else if w == "white"@ {
        Command::White
    } else if w == "black"@ {
        Command::Black
    } else if w == "level"@ {
        Command::Level
    } else if w == "st"@ {
        Command::St
    } else if w == "sd"@ {
        Command::Sd
    } else if w == "nps"@ {
        Command::Nps
    } else if w == "time"@ {
        Command::Time
    } else if w == "otim"@ {
        Command::Otim
    } else if w == "ping"@ {
        Command::Ping
    } else if w == "setboard"@ {
        Command::SetBoard
    } else if w == "result"@ {
        Command::Outcome
    } else if w == "option"@ {
        Command::Adjust
    } else if w == "memory"@ {
        Command::Memory
    } else if w == "cores"@ {
        Command::Cores
    } else if w == "usermove"@ {
        Command::UserMove
    } else if w == "accepted"@ || w == "rejected"@ {
        Command::Feature
    } else if w == "quit"@ {
        Command::Quit
    } else {
        Command::Other
    }
}

/// [`command`].
fn read_command(w: &Vec<char>) -> (c: Command)
    ensures
        c == command(w@),
{
    if text::is_word(w, "xboard") {
        Command::Protocol
    } else if text::is_word(w, "protover") {
        Command::Protover
    } else if text::is_word(w, "new") {
        Command::New
    } else if text::is_word(w, "force") {
        Command::Force
    } else if text::is_word(w, "go") || text::is_word(w, "playother") {
        Command::Go
    } else if text::is_word(w, "analyze") {
        Command::Analyze
    } else if text::is_word(w, "exit") {
        Command::Exit
    } else if text::is_word(w, "white") {
        Command::White
    } else if text::is_word(w, "black") {
        Command::Black
    } else if text::is_word(w, "level") {
        Command::Level
    } else if text::is_word(w, "st") {
        Command::St
    } else if text::is_word(w, "sd") {
        Command::Sd
    } else if text::is_word(w, "nps") {
        Command::Nps
    } else if text::is_word(w, "time") {
        Command::Time
    } else if text::is_word(w, "otim") {
        Command::Otim
    } else if text::is_word(w, "ping") {
        Command::Ping
    } else if text::is_word(w, "setboard") {
        Command::SetBoard
    } else if text::is_word(w, "result") {
        Command::Outcome
    } else if text::is_word(w, "option") {
        Command::Adjust
    } else if text::is_word(w, "memory") {
        Command::Memory
    } else if text::is_word(w, "cores") {
        Command::Cores
    } else if text::is_word(w, "usermove") {
        Command::UserMove
    } else if text::is_word(w, "accepted") || text::is_word(w, "rejected") {
        Command::Feature
    } else if text::is_word(w, "quit") {
        Command::Quit
    } else {
        Command::Other
    }
}

/// What the session holds beside the game.
#[derive(Clone, Copy, Debug, PartialEq, Eq, Structural)]
pub struct Setup {
    pub mode: Mode,
    pub hash_size: usize,
    pub overhead: u64,
    pub show_wdl: bool,
    pub engine_side: Option<Color>,
    pub is_frc: bool,
    pub nps: Option<u64>,
    pub threads: usize,
    pub wtime: u64,
    pub btime: u64,
    pub winc: u64,
    pub binc: u64,
    pub movestogo: u64,
    pub movetime: u64,
    pub depth: i32,
    pub infinite: bool,
}

impl Setup {
    /// Every option lies in its range.
    pub open spec fn wf(self) -> bool {
        1 <= self.hash_size <= 524288 && self.overhead <= 2000 && 1 <= self.threads <= 1024
    }

    /// The defaults.
    #[verifier::allow_in_spec]
    pub fn new() -> Setup
        returns
            (Setup {
                mode: Mode::Normal,
                hash_size: 16,
                overhead: 10,
                show_wdl: false,
                engine_side: None,
                is_frc: false,
                nps: None,
                threads: 1,
                wtime: 0,
                btime: 0,
                winc: 0,
                binc: 0,
                movestogo: 0,
                movetime: 0,
                depth: 0,
                infinite: false,
            }),
    {
        Setup {
            mode: Mode::Normal,
            hash_size: 16,
            overhead: 10,
            show_wdl: false,
            engine_side: None,
            is_frc: false,
            nps: None,
            threads: 1,
            wtime: 0,
            btime: 0,
            winc: 0,
            binc: 0,
            movestogo: 0,
            movetime: 0,
            depth: 0,
            infinite: false,
        }
    }

    /// The setup without any limits.
    #[verifier::allow_in_spec]
    pub fn unlimited(self) -> Setup
        returns
            (Setup {
                wtime: 0,
                btime: 0,
                winc: 0,
                binc: 0,
                movestogo: 0,
                movetime: 0,
                depth: 0,
                infinite: false,
                ..self
            }),
    {
        Setup {
            wtime: 0,
            btime: 0,
            winc: 0,
            binc: 0,
            movestogo: 0,
            movetime: 0,
            depth: 0,
            infinite: false,
            ..self
        }
    }

    /// The nodes that a rate allows within a fixed time per move.
    pub open spec fn rated_nodes(self) -> int {
        match self.nps {
            Some(n) => if self.movetime > 0 {
                most(n * self.movetime / 1000)
            } else {
                0
            },
            None => 0,
        }
    }

    /// Limits `l` are those of this setup.
    pub open spec fn asks_for(self, l: Limits) -> bool {
        &&& l.wtime == self.wtime && l.btime == self.btime && l.winc == self.winc && l.binc == self.binc
        &&& l.movestogo == self.movestogo && l.movetime == self.movetime && l.depth == self.depth
        &&& l.infinite == self.infinite
        &&& l.nodes == self.rated_nodes()
        &&& l.softnodes == 0 && !l.silent && l.protocol == Protocol::XBoard
        &&& l.mate is None && l.perft is None && l.searchmoves@.len() == 0
    }

    /// The limits of a search.
    pub fn limits(&self) -> (l: Limits)
        ensures
            self.asks_for(l),
    {
        let nodes: u64 = match self.nps {
            Some(n) => if self.movetime > 0 {
                let a: u128 = n as u128;
                let b: u128 = self.movetime as u128;
                proof {
                    assert(0 <= a * b <= 0xffff_ffff_ffff_ffff * 0xffff_ffff_ffff_ffff) by (nonlinear_arith)
                        requires
                            0 <= a <= 0xffff_ffff_ffff_ffff,
                            0 <= b <= 0xffff_ffff_ffff_ffff,
                    ;
                }
                let x: u128 = a * b / 1000;
                if x > u64::MAX as u128 {
                    u64::MAX
                } else {
                    x as u64
                }
            } else {
                0
            },
            None => 0,
        };
        Limits {
            wtime: self.wtime,
            btime: self.btime,
            winc: self.winc,
            binc: self.binc,
            movestogo: self.movestogo,
            movetime: self.movetime,
            depth: self.depth,
            nodes,
            softnodes: 0,
            infinite: self.infinite,
            silent: false,
            protocol: Protocol::XBoard,
            mate: None,
            perft: None,
            searchmoves: Vec::new(),
        }
    }
}

/// `x`, or the greatest `u64` where it is beyond that.
pub open spec fn most(x: int) -> int {
    if x > u64::MAX {
        u64::MAX as int
    } else {
        x
    }
}

/// `x * k`, capped.
fn scaled(x: u64, k: u64) -> (r: u64)
    requires
        k <= 60_000,
    ensures
        r == most(x * k),
{
    let a: u128 = x as u128;
    let b: u128 = k as u128;
    proof {
        assert(0 <= a * b <= 60_000 * 0xffff_ffff_ffff_ffff) by (nonlinear_arith)
            requires
                0 <= a <= 0xffff_ffff_ffff_ffff,
                0 <= b <= 60_000,
        ;
    }
    let y: u128 = a * b;
    if y > u64::MAX as u128 {
        u64::MAX
    } else {
        y as u64
    }
}

/// The number at word 1, if there is one.
pub open spec fn first(w: Seq<Seq<char>>) -> Option<int> {
    uci::number_at(w, 1, 0, uci::longest())
}

fn first_of(w: &Vec<Vec<char>>) -> (r: Option<u64>)
    ensures
        match r {
            Some(x) => first(text::spelled(w@)) == Some(x as int),
            None => first(text::spelled(w@)) is None,
        },
{
    if w.len() < 2 {
        return None;
    }
    assert(text::spelled(w@)[1] == w@[1]@);
    text::unsigned_of(&w[1])
}

/// The place of the first `c` in `s` from `i` on, or the end.
pub open spec fn place(s: Seq<char>, c: char, i: int) -> int
    decreases s.len() - i,
{
    if i < 0 || i >= s.len() {
        s.len() as int
    } else if s[i] == c {
        i
    } else {
        place(s, c, i + 1)
    }
}

fn find(s: &Vec<char>, c: char, from: usize) -> (e: usize)
    requires
        from <= s@.len(),
    ensures
        e == place(s@, c, from as int),
        from <= e <= s@.len(),
{
    let mut i: usize = from;
    while i < s.len()
        invariant
            from <= i <= s@.len(),
            place(s@, c, i as int) == place(s@, c, from as int),
        decreases s@.len() - i,
    {
        if s[i] == c {
            return i;
        }
        i = i + 1;
    }
    i
}

/// The characters from `i` up to `j`.
fn slice(s: &Vec<char>, i: usize, j: usize) -> (v: Vec<char>)
    requires
        i <= j <= s@.len(),
    ensures
        v@ == s@.subrange(i as int, j as int),
{
    let mut v: Vec<char> = Vec::new();
    let mut k: usize = i;
    while k < j
        invariant
            i <= k <= j <= s@.len(),
            v@ == s@.subrange(i as int, k as int),
        decreases j - k,
    {
        v.push(s[k]);
        k = k + 1;
        assert(v@ =~= s@.subrange(i as int, k as int));
    }
    v
}

/// The number that a word spells, or nothing.
pub open spec fn or_zero(s: Seq<char>) -> int {
    match text::unsigned(s) {
        Some(x) => if x <= u64::MAX {
            x
        } else {
            0
        },
        None => 0,
    }
}

fn number_or_zero(s: &Vec<char>) -> (x: u64)
    ensures
        x == or_zero(s@),
{
    match text::unsigned_of(s) {
        Some(x) => x,
        None => 0,
    }
}

/// A base time in milliseconds, from minutes (`5`) or minutes and seconds (`5:30`).
pub open spec fn base_time(s: Seq<char>) -> int {
    let c = place(s, ':', 0);
    let secs = if c < s.len() {
        or_zero(s.subrange(c + 1, place(s, ':', c + 1)))
    } else {
        0
    };
    most((or_zero(s.subrange(0, c)) * 60 + secs) * 1000)
}

/// [`base_time`].
fn read_base(s: &Vec<char>) -> (ms: u64)
    ensures
        ms == base_time(s@),
{
    let c: usize = find(s, ':', 0);
    let mins: u64 = number_or_zero(&slice(s, 0, c));
    let secs: u64 = if c < s.len() {
        number_or_zero(&slice(s, c + 1, find(s, ':', c + 1)))
    } else {
        0
    };
    let total: u128 = (mins as u128 * 60 + secs as u128) * 1000;
    if total > u64::MAX as u128 {
        u64::MAX
    } else {
        total as u64
    }
}

/// What a `level` command does: moves per session, base time and increment. The increment
/// is handed in.
pub open spec fn leveled(s: Setup, w: Seq<Seq<char>>, inc_ms: Option<u64>) -> Setup {
    if w.len() < 2 {
        s
    } else {
        let base = if w.len() > 2 {
            base_time(w[2]) as u64
        } else {
            0
        };
        Setup {
            movestogo: match first(w) {
                Some(x) => x as u64,
                None => s.movestogo,
            },
            wtime: if w.len() > 2 {
                base
            } else {
                s.wtime
            },
            btime: if w.len() > 2 {
                base
            } else {
                s.btime
            },
            winc: if w.len() > 3 && inc_ms is Some {
                inc_ms->0
            } else {
                s.winc
            },
            binc: if w.len() > 3 && inc_ms is Some {
                inc_ms->0
            } else {
                s.binc
            },
            ..s
        }
    }
}

/// The side whose clock `time` tells: the engine's, or the side to move before it has one.
pub open spec fn own_side(s: Setup, stm: Color) -> Color {
    match s.engine_side {
        Some(c) => c,
        None => stm,
    }
}

/// What telling a clock does.
pub open spec fn clocked(s: Setup, side: Color, ms: u64) -> Setup {
    match side {
        Color::White => Setup { wtime: ms, ..s },
        Color::Black => Setup { btime: ms, ..s },
    }
}

impl Setup {
    fn cmd_level(&mut self, w: &Vec<Vec<char>>, inc_ms: Option<u64>)
        ensures
            *final(self) == leveled(*old(self), text::spelled(w@), inc_ms),
    {
        let ghost ws = text::spelled(w@);
        if w.len() < 2 {
            return;
        }
        if let Some(x) = first_of(w) {
            self.movestogo = x;
        }
        if w.len() > 2 {
            assert(ws[2] == w@[2]@);
            let ms: u64 = read_base(&w[2]);
            self.wtime = ms;
            self.btime = ms;
        }
        if w.len() > 3 {
            if let Some(x) = inc_ms {
                self.winc = x;
                self.binc = x;
            }
        }
    }

    fn tell_clock(&mut self, side: Color, ms: u64)
        ensures
            *final(self) == clocked(*old(self), side, ms),
    {
        match side {
            Color::White => {
                self.wtime = ms;
            },
            Color::Black => {
                self.btime = ms;
            },
        }
    }
}

/// The words joined by single spaces.
pub open spec fn joined(w: Seq<Seq<char>>, i: int) -> Seq<char>
    decreases w.len() - i,
{
    if i < 0 || i >= w.len() {
        Seq::empty()
    } else if i == w.len() - 1 {
        w[i]
    } else {
        w[i].push(' ') + joined(w, i + 1)
    }
}

/// [`joined`].
fn join(w: &Vec<Vec<char>>, from: usize) -> (s: Vec<char>)
    requires
        from <= w@.len(),
    ensures
        s@ == joined(text::spelled(w@), from as int),
{
    let ghost ws = text::spelled(w@);
    let mut s: Vec<char> = Vec::new();
    let mut i: usize = from;
    assert(s@ + joined(ws, from as int) =~= joined(ws, from as int));
    while i < w.len()
        invariant
            from <= i <= w@.len(),
            ws == text::spelled(w@),
            s@ + joined(ws, i as int) == joined(ws, from as int),
        decreases w@.len() - i,
    {
        assert(ws[i as int] == w@[i as int]@);
        let ghost before = s@;
        let mut j: usize = 0;
        while j < w[i].len()
            invariant
                i < w@.len(),
                j <= w@[i as int]@.len(),
                s@ == before + w@[i as int]@.take(j as int),
            decreases w@[i as int]@.len() - j,
        {
            s.push(w[i][j]);
            j = j + 1;
            assert(s@ =~= before + w@[i as int]@.take(j as int));
        }
        assert(s@ =~= before + ws[i as int]);
        if i + 1 < w.len() {
            s.push(' ');
        }
        i = i + 1;
        assert(s@ + joined(ws, i as int) =~= before + joined(ws, i - 1));
    }
    assert(s@ + joined(ws, i as int) =~= s@);
    s
}

/// What an option's change asks of the outside.
#[derive(Clone, Copy, Debug, PartialEq, Eq, Structural)]
pub enum Upkeep {
    Nothing,
    /// The table is to have this size, in megabytes.
    Resize(usize),
}

/// What an `option` command does. The text holds one equals sign, with the name before it
/// and the value behind it.
pub open spec fn after_option(s: Setup, text_: Seq<char>) -> (Setup, Upkeep) {
    let e = place(text_, '=', 0);
    let names = text::words(text_.subrange(0, e));
    let values = text::words(text_.subrange(e + 1, text_.len() as int));
    if e == text_.len() || place(text_, '=', e + 1) != text_.len() || names.len() != 1 || values.len() != 1 {
        (s, Upkeep::Nothing)
    } else {
        let name = text::lowered(names[0]);
        match uci::amount(values) {
            None => (s, Upkeep::Nothing),
            Some(x) => if name == "hash"@ {
                let mb = uci::within(x, 1, 524288) as usize;
                (Setup { hash_size: mb, ..s }, Upkeep::Resize(mb))
            } else if name == "overhead"@ {
                (Setup { overhead: uci::within(x, 0, 2000) as u64, ..s }, Upkeep::Nothing)
            } else if name == "showwdl"@ && x <= 255 {
                (Setup { show_wdl: x != 0, ..s }, Upkeep::Nothing)
            } else {
                (s, Upkeep::Nothing)
            },
        }
    }
}

impl Setup {
    fn cmd_option(&mut self, t: &Vec<char>) -> (u: Upkeep)
        requires
            old(self).wf(),
        ensures
            final(self).wf(),
            (*final(self), u) == after_option(*old(self), t@),
    {
        let e: usize = find(t, '=', 0);
        if e == t.len() || find(t, '=', e + 1) != t.len() {
            return Upkeep::Nothing;
        }
        let names = text::words_of(&slice(t, 0, e));
        let values = text::words_of(&slice(t, e + 1, t.len()));
        assert(text::spelled(names@).len() == names@.len() && text::spelled(values@).len() == values@.len());
        if names.len() != 1 || values.len() != 1 {
            return Upkeep::Nothing;
        }
        assert(text::spelled(names@)[0] == names@[0]@);
        assert(text::spelled(values@)[0] == values@[0]@);
        let x: u64 = match text::unsigned_of(&values[0]) {
            Some(x) => x,
            None => {
                return Upkeep::Nothing;
            },
        };
        if text::is_lowered(&names[0], "hash") {
            let mb: usize = clamped(x, 1, 524288) as usize;
            self.hash_size = mb;
            return Upkeep::Resize(mb);
        }
        if text::is_lowered(&names[0], "overhead") {
            self.overhead = clamped(x, 0, 2000);
        } else if text::is_lowered(&names[0], "showwdl") && x <= 255 {
            self.show_wdl = x != 0;
        }
        Upkeep::Nothing
    }
}

/// What a command asks of the outside.
pub enum XBoardAction {
    Nothing,
    /// The search is to end, and the session too.
    Quit,
    /// The features are to be listed.
    Features,
    /// The search is to end and the table to be cleared.
    NewGame,
    /// The search is to end.
    Stop,
    /// The search is to end; the side to move is in check, and cannot pass.
    CannotFlip,
    /// A search is to start from the board, whatever runs to end first.
    Search(Limits),
    /// The word is to be sent back.
    Pong(Vec<char>),
    /// A position was set up: the search is to end, and the table ages.
    Placed,
    BadFen(FenError),
    Upkeep(Upkeep),
    /// The pool is to have this many threads.
    Rethread(usize),
    /// A move was played: the search is to end, and the table ages. Whether the game is
    /// drawn by repetition, and the limits of the search that is to start.
    Moved { drawn: bool, search: Option<Limits> },
    IllegalMove(Vec<char>),
    UnknownCommand(Vec<char>),
}

/// A session.
pub struct XBoardState {
    pub game: Game,
    /// The initial position.
    pub start: Position,
    pub setup: Setup,
}

impl XBoardState {
    pub open spec fn wf(self) -> bool {
        self.game.wf() && self.start.wf() && self.setup.wf()
    }

    /// A session that starts from the initial position.
    pub fn new(start: &Position) -> (s: XBoardState)
        requires
            start.wf(),
        ensures
            s.wf(),
            s.start == *start,
            s.game.board == *start,
            s.game.history@ == seq![start.hash],
            s.setup == Setup::new(),
    {
        XBoardState { game: Game::new(start), start: *start, setup: Setup::new() }
    }

    /// What the word of a move comes to.
    pub open spec fn moved(self, o: XBoardState, w: Seq<char>, a: XBoardAction) -> bool {
        &&& self.setup == o.setup
        &&& a is Moved
        &&& exists|m: Move| #[trigger]
            uci::calls(o.game.board, w, m) && line::followed(o.game.board, m, self.game.board)
        &&& self.game.history@ == o.game.history@.push(self.game.board.hash)
        &&& a->drawn == (game::occurrences(self.game.history@, self.game.board.hash, self.game.history@.len()) >= 3)
        &&& if o.setup.mode == Mode::Normal && o.setup.engine_side == Some(self.game.board.stm) {
            a->search is Some && o.setup.asks_for(a->search->0)
        } else {
            a->search is None
        }
    }

    /// Plays the move that a word names, and says whether it names one.
    fn cmd_move(&mut self, w: &Vec<char>) -> (r: Option<XBoardAction>)
        requires
            old(self).wf(),
        ensures
            final(self).wf(),
            final(self).start == old(self).start,
            match r {
                Some(a) => final(self).moved(*old(self), w@, a),
                None => {
                    &&& uci::calls_none(old(self).game.board, w@)
                    &&& final(self).game == old(self).game
                    &&& final(self).setup == old(self).setup
                },
            },
    {
        let m = match notation::parse_move(&self.game.board, w) {
            Ok(m) => m,
            Err(_) => {
                return None;
            },
        };
        assert(uci::calls(self.game.board, w@, m));
        self.game.play(m);
        let drawn = self.game.is_threefold_repetition();
        let turn = match self.setup.engine_side {
            Some(c) => c == self.game.board.stm,
            None => false,
        };
        let search = if self.setup.mode == Mode::Normal && turn {
            Some(self.setup.limits())
        } else {
            None
        };
        Some(XBoardAction::Moved { drawn, search })
    }

    /// Gives the move to side `c`.
    fn cmd_side(&mut self, c: Color) -> (a: XBoardAction)
        requires
            old(self).wf(),
        ensures
            final(self).wf(),
            final(self).start == old(self).start,
            final(self).turned(*old(self), c, a),
    {
        self.setup.engine_side = Some(c.opposite());
        if self.game.board.stm == c {
            return XBoardAction::Stop;
        }
        if self.game.flip() {
            XBoardAction::Stop
        } else {
            XBoardAction::CannotFlip
        }
    }

    /// What giving the move to side `c` comes to: the engine plays the other.
    pub open spec fn turned(self, o: XBoardState, c: Color, a: XBoardAction) -> bool {
        &&& self.setup == Setup { engine_side: Some(c.other()), ..o.setup }
        &&& self.game.history@ == o.game.history@
        &&& if o.game.board.stm == c {
            self.game.board == o.game.board && a is Stop
        } else if game::checked(o.game.board) {
            self.game.board == o.game.board && a is CannotFlip
        } else {
            game::flipped(o.game.board, self.game.board) && a is Stop
        }
    }

    /// The session and the words of a command, to what it asks for.
    pub open spec fn answers(self, o: XBoardState, w: Seq<Seq<char>>, inc_ms: Option<u64>, a: XBoardAction) -> bool {
        let same = self.game == o.game && self.setup == o.setup;
        let board = self.game == o.game;
        if w.len() == 0 {
            same && a is Nothing
        } else {
            match command(w[0]) {
                Command::Quit => same && a is Quit,
                Command::Protocol | Command::Feature => same && a is Nothing,
                Command::Protover => same && if w.len() > 1 && w[1] == "2"@ {
                    a is Features
                } else {
                    a is Nothing
                },
                Command::New => {
                    &&& self.game.board == Position { is_frc: o.setup.is_frc, ..o.start }
                    &&& self.game.history@ == seq![o.start.hash]
                    &&& self.setup == Setup {
                        mode: Mode::Normal,
                        engine_side: Some(Color::Black),
                        ..o.setup.unlimited()
                    }
                    &&& a is NewGame
                },
                Command::Force => board && self.setup == Setup { mode: Mode::Force, ..o.setup } && a is Stop,
                Command::Go => {
                    &&& board
                    &&& self.setup == Setup { mode: Mode::Normal, engine_side: Some(o.game.board.stm), ..o.setup }
                    &&& a is Search
                    &&& self.setup.asks_for(a->Search_0)
                },
                Command::Analyze => {
                    &&& board
                    &&& self.setup == Setup { mode: Mode::Analyze, infinite: true, ..o.setup }
                    &&& a is Search
                    &&& self.setup.asks_for(a->Search_0)
                },
                Command::Exit => {
                    &&& board
                    &&& self.setup == Setup { mode: Mode::Normal, infinite: false, ..o.setup }
                    &&& a is Stop
                },
                Command::White => self.turned(o, Color::White, a),
                Command::Black => self.turned(o, Color::Black, a),
                Command::Level => board && self.setup == leveled(o.setup, w, inc_ms) && a is Nothing,
                Command::St => {
                    &&& board
                    &&& a is Nothing
                    &&& self.setup == match first(w) {
                        Some(x) => Setup { movetime: most(x * 1000) as u64, ..o.setup },
                        None => o.setup,
                    }
                },
                Command::Sd => {
                    &&& board
                    &&& a is Nothing
                    &&& self.setup == match uci::number_at(w, 1, i32::MIN as int, i32::MAX as int) {
                        Some(x) => Setup { depth: x as i32, ..o.setup },
                        None => o.setup,
                    }
                },
                Command::Nps => {
                    &&& board
                    &&& a is Nothing
                    &&& self.setup == match first(w) {
                        Some(x) => Setup {
                            nps: if x > 0 {
                                Some(x as u64)
                            } else {
                                None
                            },
                            ..o.setup
                        },
                        None => o.setup,
                    }
                },
                Command::Time => {
                    &&& board
                    &&& a is Nothing
                    &&& self.setup == match first(w) {
                        Some(x) => clocked(o.setup, own_side(o.setup, o.game.board.stm), most(x * 10) as u64),
                        None => o.setup,
                    }
                },
                Command::Otim => {
                    &&& board
                    &&& a is Nothing
                    &&& self.setup == match first(w) {
                        Some(x) => clocked(o.setup, own_side(o.setup, o.game.board.stm).other(), most(x * 10) as u64),
                        None => o.setup,
                    }
                },
                Command::Ping => same && if w.len() > 1 {
                    a is Pong && a->Pong_0@ == w[1]
                } else {
                    a is Nothing
                },
                Command::SetBoard => {
                    let f = w.subrange(1, w.len() as int);
                    &&& self.setup == o.setup
                    &&& match fen::fault(f) {
                        Some(x) => a == XBoardAction::BadFen(x) && board,
                        None => {
                            &&& a is Placed
                            &&& exists|b: Position| #[trigger]
                                fen::described(f, b) && b.wf() && self.game.board == (Position {
                                    is_frc: o.setup.is_frc,
                                    ..b
                                }) && self.game.history@ == seq![b.hash]
                        },
                    }
                },
                Command::Outcome => same && a is Stop,
                Command::Adjust => {
                    &&& board
                    &&& a is Upkeep
                    &&& (self.setup, a->Upkeep_0) == after_option(o.setup, joined(w, 1))
                },
                Command::Memory => board && match first(w) {
                    Some(x) => {
                        let mb = uci::within(x, 1, 524288) as usize;
                        self.setup == Setup { hash_size: mb, ..o.setup } && a == XBoardAction::Upkeep(Upkeep::Resize(mb))
                    },
                    None => self.setup == o.setup && a is Nothing,
                },
                Command::Cores => board && match first(w) {
                    Some(x) => {
                        let n = uci::within(x, 1, 1024) as usize;
                        &&& self.setup == Setup { threads: n, ..o.setup }
                        &&& if n == o.setup.threads {
                            a is Nothing
                        } else {
                            a == XBoardAction::Rethread(n)
                        }
                    },
                    None => self.setup == o.setup && a is Nothing,
                },
                Command::UserMove => if w.len() < 2 {
                    same && a is Nothing
                } else {
                    ||| self.moved(o, w[1], a)
                    ||| uci::calls_none(o.game.board, w[1]) && same && a is IllegalMove && a->IllegalMove_0@ == w[1]
                },
                Command::Other => {
                    ||| self.moved(o, w[0], a)
                    ||| uci::calls_none(o.game.board, w[0]) && same && a is UnknownCommand && a->UnknownCommand_0@ == w[0]
                },
            }
        }
    }

    /// Carries out a command line. What cannot be done here comes back as an action. The
    /// increment of a `level` command is a fraction, and comes in milliseconds.
    pub fn handle_command(&mut self, line: &str, inc_ms: Option<u64>) -> (a: XBoardAction)
        requires
            old(self).wf(),
        ensures
            final(self).wf(),
            final(self).start == old(self).start,
            final(self).answers(*old(self), text::words(line@), inc_ms, a),
    {
        let w = text::words_of(&text::chars_of(line));
        if w.len() == 0 {
            return XBoardAction::Nothing;
        }
        assert(text::spelled(w@)[0] == w@[0]@);
        match read_command(&w[0]) {
            Command::Quit => XBoardAction::Quit,
            Command::Protocol | Command::Feature => XBoardAction::Nothing,
            Command::Protover => {
                if w.len() > 1 {
                    assert(text::spelled(w@)[1] == w@[1]@);
                    if text::is_word(&w[1], "2") {
                        return XBoardAction::Features;
                    }
                }
                XBoardAction::Nothing
            },
            Command::New => {
                let frc = self.setup.is_frc;
                self.game.load(&self.start, frc);
                self.setup = self.setup.unlimited();
                self.setup.mode = Mode::Normal;
                self.setup.engine_side = Some(Color::Black);
                XBoardAction::NewGame
            },
            Command::Force => {
                self.setup.mode = Mode::Force;
                XBoardAction::Stop
            },
            Command::Go => {
                self.setup.mode = Mode::Normal;
                self.setup.engine_side = Some(self.game.board.stm);
                XBoardAction::Search(self.setup.limits())
            },
            Command::Analyze => {
                self.setup.mode = Mode::Analyze;
                self.setup.infinite = true;
                XBoardAction::Search(self.setup.limits())
            },
            Command::Exit => {
                self.setup.mode = Mode::Normal;
                self.setup.infinite = false;
                XBoardAction::Stop
            },
            Command::White => self.cmd_side(Color::White),
            Command::Black => self.cmd_side(Color::Black),
            Command::Level | Command::St | Command::Sd | Command::Nps | Command::Time | Command::Otim => {
                self.tune(&w, inc_ms);
                XBoardAction::Nothing
            },
            Command::SetBoard => self.cmd_setboard(&w),
            Command::Outcome => XBoardAction::Stop,
            Command::Adjust => XBoardAction::Upkeep(self.setup.cmd_option(&join(&w, 1))),
            Command::Memory | Command::Cores => self.cmd_resources(&w),
            Command::Ping => {
                if w.len() > 1 {
                    assert(text::spelled(w@)[1] == w@[1]@);
                    return XBoardAction::Pong(copied(&w[1]));
                }
                XBoardAction::Nothing
            },
            Command::UserMove => {
                if w.len() < 2 {
                    return XBoardAction::Nothing;
                }
                assert(text::spelled(w@)[1] == w@[1]@);
                match self.cmd_move(&w[1]) {
                    Some(a) => a,
                    None => XBoardAction::IllegalMove(copied(&w[1])),
                }
            },
            Command::Other => match self.cmd_move(&w[0]) {
                Some(a) => a,
                None => XBoardAction::UnknownCommand(copied(&w[0])),
            },
        }
    }

    /// The commands that only set limits.
    fn tune(&mut self, w: &Vec<Vec<char>>, inc_ms: Option<u64>)
        requires
            old(self).wf(),
            w@.len() > 0,
            command(w@[0]@) is Level || command(w@[0]@) is St || command(w@[0]@) is Sd || command(w@[0]@) is Nps || command(
                w@[0]@,
            ) is Time || command(w@[0]@) is Otim,
        ensures
            final(self).wf(),
            final(self).start == old(self).start,
            final(self).answers(*old(self), text::spelled(w@), inc_ms, XBoardAction::Nothing),
    {
        assert(text::spelled(w@)[0] == w@[0]@);
        let c = read_command(&w[0]);
        match c {
            Command::Level => {
                self.setup.cmd_level(w, inc_ms);
            },
            Command::Sd => {
                if w.len() > 1 {
                    assert(text::spelled(w@)[1] == w@[1]@);
                    if let Some(x) = text::signed_of(&w[1]) {
                        self.setup.depth = x;
                    }
                }
            },
            _ => {
                let x: u64 = match first_of(w) {
                    Some(x) => x,
                    None => {
                        return;
                    },
                };
                let own = match self.setup.engine_side {
                    Some(s) => s,
                    None => self.game.board.stm,
                };
                match c {
                    Command::St => {
                        self.setup.movetime = scaled(x, 1000);
                    },
                    Command::Nps => {
                        self.setup.nps = if x > 0 {
                            Some(x)
                        } else {
                            None
                        };
                    },
                    Command::Time => {
                        self.setup.tell_clock(own, scaled(x, 10));
                    },
                    _ => {
                        self.setup.tell_clock(own.opposite(), scaled(x, 10));
                    },
                }
            },
        }
    }

    /// Sets up a position.
    fn cmd_setboard(&mut self, w: &Vec<Vec<char>>) -> (a: XBoardAction)
        requires
            old(self).wf(),
            w@.len() > 0,
            command(w@[0]@) is SetBoard,
        ensures
            final(self).wf(),
            final(self).start == old(self).start,
            final(self).answers(*old(self), text::spelled(w@), None, a),
            forall|inc: Option<u64>| #[trigger] final(self).answers(*old(self), text::spelled(w@), inc, a),
    {
        assert(text::spelled(w@)[0] == w@[0]@);
        let words = part(w, 1, w.len());
        match Position::try_from_words(&words) {
            Ok(board) => {
                let frc = self.setup.is_frc;
                self.game.load(&board, frc);
                assert(fen::described(text::spelled(w@).subrange(1, w@.len() as int), board));
                XBoardAction::Placed
            },
            Err(x) => XBoardAction::BadFen(x),
        }
    }

    /// Sets the size of the table or of the pool.
    fn cmd_resources(&mut self, w: &Vec<Vec<char>>) -> (a: XBoardAction)
        requires
            old(self).wf(),
            w@.len() > 0,
            command(w@[0]@) is Memory || command(w@[0]@) is Cores,
        ensures
            final(self).wf(),
            final(self).start == old(self).start,
            forall|inc: Option<u64>| #[trigger] final(self).answers(*old(self), text::spelled(w@), inc, a),
    {
        assert(text::spelled(w@)[0] == w@[0]@);
        let x: u64 = match first_of(w) {
            Some(x) => x,
            None => {
                return XBoardAction::Nothing;
            },
        };
        if let Command::Memory = read_command(&w[0]) {
            let mb: usize = clamped(x, 1, 524288) as usize;
            self.setup.hash_size = mb;
            return XBoardAction::Upkeep(Upkeep::Resize(mb));
        }
        let n: usize = clamped(x, 1, 1024) as usize;
        if n == self.setup.threads {
            return XBoardAction::Nothing;
        }
        self.setup.threads = n;
        XBoardAction::Rethread(n)
    }
}

/// `time` and `otim` tell the two clocks apart, in whichever order they come.
pub proof fn law_time_and_otim_tell_different_clocks(s: Setup, stm: Color, mine: u64, theirs: u64)
    ensures
        ({
            let own = own_side(s, stm);
            let both = clocked(clocked(s, own, mine), own.other(), theirs);
            &&& both == clocked(clocked(s, own.other(), theirs), own, mine)
            &&& own == Color::White ==> both.wtime == mine && both.btime == theirs
            &&& own == Color::Black ==> both.btime == mine && both.wtime == theirs
        }),
{
}

/// Each command has its own word, and no other word stands for it.
pub proof fn law_each_command_has_its_word(w: Seq<char>)
    ensures
        command(w) == Command::Protocol <==> w == "xboard"@,
        command(w) == Command::Protover <==> w == "protover"@,
        command(w) == Command::New <==> w == "new"@,
        command(w) == Command::Force <==> w == "force"@,
        command(w) == Command::Analyze <==> w == "analyze"@,
        command(w) == Command::Exit <==> w == "exit"@,
        command(w) == Command::White <==> w == "white"@,
        command(w) == Command::Black <==> w == "black"@,
        command(w) == Command::Level <==> w == "level"@,
        command(w) == Command::St <==> w == "st"@,
        command(w) == Command::Sd <==> w == "sd"@,
        command(w) == Command::Nps <==> w == "nps"@,
        command(w) == Command::Time <==> w == "time"@,
        command(w) == Command::Otim <==> w == "otim"@,
        command(w) == Command::Ping <==> w == "ping"@,
        command(w) == Command::SetBoard <==> w == "setboard"@,
        command(w) == Command::Outcome <==> w == "result"@,
        command(w) == Command::Adjust <==> w == "option"@,
        command(w) == Command::Memory <==> w == "memory"@,
        command(w) == Command::Cores <==> w == "cores"@,
        command(w) == Command::UserMove <==> w == "usermove"@,
        command(w) == Command::Quit <==> w == "quit"@,
        command(w) == Command::Go <==> w == "go"@ || w == "playother"@,
        command(w) == Command::Feature <==> w == "accepted"@ || w == "rejected"@,
{
    reveal_strlit("xboard");
    reveal_strlit("protover");
    reveal_strlit("new");
    reveal_strlit("force");
    reveal_strlit("analyze");
    reveal_strlit("exit");
    reveal_strlit("white");
    reveal_strlit("black");
    reveal_strlit("level");
    reveal_strlit("st");
    reveal_strlit("sd");
    reveal_strlit("nps");
    reveal_strlit("time");
    reveal_strlit("otim");
    reveal_strlit("ping");
    reveal_strlit("setboard");
    reveal_strlit("result");
    reveal_strlit("option");
    reveal_strlit("memory");
    reveal_strlit("cores");
    reveal_strlit("usermove");
    reveal_strlit("quit");
    reveal_strlit("go");
    reveal_strlit("playother");
    reveal_strlit("accepted");
    reveal_strlit("rejected");
    assert("xboard"@.len() == 6);
    assert("protover"@.len() == 8);
    assert("new"@.len() == 3);
    assert("force"@.len() == 5);
    assert("analyze"@.len() == 7);
    assert("exit"@.len() == 4);
    assert("white"@.len() == 5);
    assert("black"@.len() == 5);
    assert("level"@.len() == 5);
    assert("st"@.len() == 2);
    assert("sd"@.len() == 2);
    assert("nps"@.len() == 3);
    assert("time"@.len() == 4);
    assert("otim"@.len() == 4);
    assert("ping"@.len() == 4);
    assert("setboard"@.len() == 8);
    assert("result"@.len() == 6);
    assert("option"@.len() == 6);
    assert("memory"@.len() == 6);
    assert("cores"@.len() == 5);
    assert("usermove"@.len() == 8);
    assert("quit"@.len() == 4);
    assert("go"@.len() == 2);
    assert("playother"@.len() == 9);
    assert("accepted"@.len() == 8);
    assert("rejected"@.len() == 8);
    assert("accepted"@[0] != "rejected"@[0]);
    assert("black"@[0] != "cores"@[0]);
    assert("black"@[0] != "level"@[0]);
    assert("exit"@[0] != "otim"@[0]);
    assert("exit"@[0] != "ping"@[0]);
    assert("exit"@[0] != "quit"@[0]);
    assert("exit"@[0] != "time"@[0]);
    assert("force"@[0] != "black"@[0]);
    assert("force"@[0] != "cores"@[0]);
    assert("force"@[0] != "level"@[0]);
    assert("force"@[0] != "white"@[0]);
    assert("level"@[0] != "cores"@[0]);
    assert("new"@[1] != "nps"@[1]);
    assert("option"@[0] != "memory"@[0]);
    assert("otim"@[0] != "ping"@[0]);
    assert("otim"@[0] != "quit"@[0]);
    assert("ping"@[0] != "quit"@[0]);
    assert("protover"@[0] != "accepted"@[0]);
    assert("protover"@[0] != "rejected"@[0]);
    assert("protover"@[0] != "setboard"@[0]);
    assert("protover"@[0] != "usermove"@[0]);
    assert("result"@[0] != "memory"@[0]);
    assert("result"@[0] != "option"@[0]);
    assert("sd"@[0] != "go"@[0]);
    assert("setboard"@[0] != "accepted"@[0]);
    assert("setboard"@[0] != "rejected"@[0]);
    assert("setboard"@[0] != "usermove"@[0]);
    assert("st"@[0] != "go"@[0]);
    assert("st"@[1] != "sd"@[1]);
    assert("time"@[0] != "otim"@[0]);
    assert("time"@[0] != "ping"@[0]);
    assert("time"@[0] != "quit"@[0]);
    assert("usermove"@[0] != "accepted"@[0]);
    assert("usermove"@[0] != "rejected"@[0]);
    assert("white"@[0] != "black"@[0]);
    assert("white"@[0] != "cores"@[0]);
    assert("white"@[0] != "level"@[0]);
    assert("xboard"@[0] != "memory"@[0]);
    assert("xboard"@[0] != "option"@[0]);
    assert("xboard"@[0] != "result"@[0]);
}

/// A fixed time is told in seconds and a clock in hundredths of a second; the engine's own clock
/// by `time` and the other by `otim`.
pub proof fn law_times_are_told_in_their_units(
    s: XBoardState,
    o: XBoardState,
    w: Seq<Seq<char>>,
    inc: Option<u64>,
    a: XBoardAction,
    x: int,
)
    requires
        s.answers(o, w, inc, a),
        w.len() == 2,
        text::unsigned(w[1]) == Some(x),
        0 <= x <= 1_000_000_000_000,
    ensures
        w[0] == "st"@ ==> s.setup.movetime == 1000 * x && s.setup.wtime == o.setup.wtime && s.setup.btime == o.setup.btime,
        w[0] == "time"@ && own_side(o.setup, o.game.board.stm) == Color::White ==> s.setup.wtime == 10 * x && s.setup.btime
            == o.setup.btime,
        w[0] == "time"@ && own_side(o.setup, o.game.board.stm) == Color::Black ==> s.setup.btime == 10 * x && s.setup.wtime
            == o.setup.wtime,
        w[0] == "otim"@ && own_side(o.setup, o.game.board.stm) == Color::White ==> s.setup.btime == 10 * x && s.setup.wtime
            == o.setup.wtime,
        w[0] == "otim"@ && own_side(o.setup, o.game.board.stm) == Color::Black ==> s.setup.wtime == 10 * x && s.setup.btime
            == o.setup.btime,
        w[0] == "nps"@ && x > 0 ==> s.setup.nps == Some(x as u64),
        w[0] == "nps"@ && x == 0 ==> s.setup.nps is None,
        w[0] == "cores"@ && 1 <= x <= 1024 ==> s.setup.threads == x,
        w[0] == "memory"@ && 1 <= x <= 524288 ==> s.setup.hash_size == x,
{
    law_each_command_has_its_word(w[0]);
}

/// A base time of minutes, with or without seconds behind a colon, is that many milliseconds.
pub proof fn law_a_base_time_is_told_in_minutes_and_seconds(m: Seq<char>, s: Seq<char>, x: int, y: int)
    requires
        text::unsigned(m) == Some(x) && 0 <= x <= 1_000_000,
        text::unsigned(s) == Some(y) && 0 <= y <= 1_000_000,
        forall|i: int| 0 <= i < m.len() ==> #[trigger] m[i] != ':',
        forall|i: int| 0 <= i < s.len() ==> #[trigger] s[i] != ':',
    ensures
        base_time(m) == 60_000 * x,
        base_time(m.push(':') + s) == 60_000 * x + 1000 * y,
{
    let t = m.push(':') + s;
    lemma_found(m, ':', 0, m.len() as int);
    lemma_found(t, ':', 0, m.len() as int);
    lemma_found(t, ':', m.len() as int + 1, t.len() as int);
    assert(m.subrange(0, m.len() as int) =~= m);
    assert(t.subrange(0, m.len() as int) =~= m);
    assert(t.subrange(m.len() as int + 1, t.len() as int) =~= s);
}

/// A character is found at its first place.
proof fn lemma_found(s: Seq<char>, c: char, i: int, e: int)
    requires
        0 <= i <= e <= s.len(),
        forall|k: int| i <= k < e ==> s[k] != c,
        e < s.len() ==> s[e] == c,
    ensures
        place(s, c, i) == e,
    decreases e - i,
{
    if i < e {
        lemma_found(s, c, i + 1, e);
    }
}

/// A `level` command gives both sides the same clock and increment, and changes nothing else.
pub proof fn law_both_sides_play_at_one_level(s: Setup, w: Seq<Seq<char>>, inc: Option<u64>, moves: u64, m: int)
    requires
        w.len() == 4,
        text::unsigned(w[1]) == Some(moves as int),
        text::unsigned(w[2]) == Some(m) && 0 <= m <= 1_000_000,
        forall|i: int| 0 <= i < w[2].len() ==> #[trigger] w[2][i] != ':',
        inc is Some,
    ensures
        ({
            let t = leveled(s, w, inc);
            &&& t.movestogo == moves
            &&& t.wtime == t.btime && t.wtime == 60_000 * m
            &&& t.winc == t.binc && Some(t.winc) == inc
            &&& t == (Setup { wtime: t.wtime, btime: t.btime, winc: t.winc, binc: t.binc, movestogo: t.movestogo, ..s })
        }),
{
    law_a_base_time_is_told_in_minutes_and_seconds(w[2], w[2], m, m);
}

/// A rate of nodes per second and a fixed time allow their product, a thousandth of it where the
/// time is in milliseconds; without either, nodes are not limited.
pub proof fn law_a_rate_limits_nodes(s: Setup, n: u64, t: u64)
    requires
        s.nps == Some(n),
        n <= 1_000_000_000,
        s.movetime == 1000 * t,
        0 < t <= 1_000_000,
    ensures
        s.rated_nodes() == n * t,
        (Setup { nps: None, ..s }).rated_nodes() == 0,
        (Setup { movetime: 0, ..s }).rated_nodes() == 0,
{
    assert(n * (1000 * t) / 1000 == n * t && 0 <= n * t <= 1_000_000_000_000_000) by (nonlinear_arith)
        requires
            0 <= n <= 1_000_000_000,
            0 < t <= 1_000_000,
    ;
}

/// After `go` the engine plays the side to move, and after `force` neither; a new game gives it
/// the second move and no limits.
pub proof fn law_who_plays(s: XBoardState, o: XBoardState, w: Seq<Seq<char>>, inc: Option<u64>, a: XBoardAction)
    requires
        s.answers(o, w, inc, a),
        w.len() > 0,
    ensures
        w[0] == "go"@ || w[0] == "playother"@ ==> s.setup.engine_side == Some(o.game.board.stm) && s.setup.mode == Mode::Normal && a
            is Search,
        w[0] == "force"@ ==> s.setup.mode == Mode::Force && a is Stop,
        w[0] == "analyze"@ ==> s.setup.mode == Mode::Analyze && s.setup.infinite && a is Search,
        w[0] == "exit"@ ==> s.setup.mode == Mode::Normal && !s.setup.infinite,
        w[0] == "new"@ ==> {
            &&& s.setup.engine_side == Some(Color::Black) && s.setup.mode == Mode::Normal
            &&& s.setup.depth == 0 && s.setup.movetime == 0 && s.setup.wtime == 0 && s.setup.btime == 0 && s.setup.movestogo == 0
            &&& s.setup.hash_size == o.setup.hash_size && s.setup.threads == o.setup.threads
        },
        w[0] == "white"@ ==> s.setup.engine_side == Some(Color::Black),
        w[0] == "black"@ ==> s.setup.engine_side == Some(Color::White),
        w[0] == "white"@ && !(a is CannotFlip) ==> s.game.board.stm == Color::White,
        w[0] == "black"@ && !(a is CannotFlip) ==> s.game.board.stm == Color::Black,
        w[0] == "ping"@ && w.len() > 1 ==> a is Pong && a->Pong_0@ == w[1],
{
    law_each_command_has_its_word(w[0]);
}

/// Joined words stand one behind the other with a space between them, and none at either end.
pub proof fn law_joined_words_have_single_spaces(w: Seq<Seq<char>>, i: int)
    requires
        0 <= i < w.len(),
    ensures
        i == w.len() - 1 ==> joined(w, i) == w[i],
        i < w.len() - 1 ==> joined(w, i) == w[i] + seq![' '] + joined(w, i + 1),
        joined(w, w.len() as int) == Seq::<char>::empty(),
{
    if i < w.len() - 1 {
        assert(w[i].push(' ') + joined(w, i + 1) =~= w[i] + seq![' '] + joined(w, i + 1));
    }
}

/// An option that is set by name takes the number behind the equals sign, within its range, and
/// changes no other.
pub proof fn law_an_option_takes_what_stands_behind_the_sign(s: Setup, n: Seq<char>, v: Seq<char>, x: int)
    requires
        s.wf(),
        n.len() > 0 && v.len() > 0,
        forall|i: int| 0 <= i < n.len() ==> !text::blank(#[trigger] n[i]),
        forall|i: int| 0 <= i < v.len() ==> !text::blank(#[trigger] v[i]),
        forall|i: int| 0 <= i < n.len() ==> #[trigger] n[i] != '=',
        forall|i: int| 0 <= i < v.len() ==> #[trigger] v[i] != '=',
        text::unsigned(v) == Some(x),
        0 <= x <= u64::MAX,
    ensures
        ({
            let t = after_option(s, n.push('=') + v).0;
            let name = text::lowered(n);
            &&& t.wf()
            &&& name == "hash"@ && 1 <= x <= 524288 ==> t == (Setup { hash_size: x as usize, ..s })
            &&& name == "hash"@ && x > 524288 ==> t.hash_size == 524288
            &&& name == "overhead"@ && x <= 2000 ==> t == (Setup { overhead: x as u64, ..s })
            &&& name == "overhead"@ && x > 2000 ==> t.overhead == 2000
            &&& name == "showwdl"@ && x <= 255 ==> t == (Setup { show_wdl: x != 0, ..s })
            &&& name != "hash"@ && name != "overhead"@ && name != "showwdl"@ ==> t == s
        }),
{
    let t = n.push('=') + v;
    lemma_found(t, '=', 0, n.len() as int);
    lemma_found(t, '=', n.len() as int + 1, t.len() as int);
    assert(t.subrange(0, n.len() as int) =~= n);
    assert(t.subrange(n.len() as int + 1, t.len() as int) =~= v);
    text::law_blanks_part_words(n, ' ', v);
    text::law_blanks_part_words(v, ' ', n);
    assert(seq![v][0] == v && seq![n][0] == n);
    reveal_strlit("hash");
    reveal_strlit("overhead");
    reveal_strlit("showwdl");
    assert("hash"@.len() == 4 && "overhead"@.len() == 8 && "showwdl"@.len() == 7);
}

/// A move that brings a position about for the third time makes a draw, and no other does; it is
/// answered by a search where the engine plays the side to move and moves are not forced.
pub proof fn law_a_third_occurrence_is_a_draw(s: XBoardState, o: XBoardState, w: Seq<char>, a: XBoardAction)
    requires
        s.moved(o, w, a),
    ensures
        a->drawn <==> exists|i: int, j: int, k: int|
            0 <= i < j < k < s.game.history@.len() && #[trigger] s.game.history@[i] == s.game.board.hash && #[trigger] s.game.history@[j]
                == s.game.board.hash && #[trigger] s.game.history@[k] == s.game.board.hash,
        o.setup.mode != Mode::Normal ==> a->search is None,
        o.setup.engine_side is None ==> a->search is None,
        o.setup.mode == Mode::Normal && o.setup.engine_side == Some(s.game.board.stm) ==> a->search is Some,
        o.setup.engine_side == Some(s.game.board.stm.other()) ==> a->search is None,
        s.game.history@.len() == o.game.history@.len() + 1 && s.game.history@.last() == s.game.board.hash,
{
    game::law_three_occurrences_are_three_places(s.game.history@, s.game.board.hash);
}

/// A search is asked for the clocks, the limits and the depth that are set, each for its own side.
pub proof fn law_a_search_is_asked_for_what_is_set(s: Setup, l: Limits)
    requires
        s.asks_for(l),
    ensures
        l.wtime == s.wtime && l.btime == s.btime,
        l.winc == s.winc && l.binc == s.binc,
        l.movetime == s.movetime && l.movestogo == s.movestogo && l.depth == s.depth,
        l.infinite == s.infinite,
        s.nps is None ==> l.nodes == 0,
{
}

} // verus!
