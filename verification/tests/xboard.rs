//! A session spoken in the XBoard protocol.

use soul::chess::fen::{FenError, STARTPOS};
use soul::chess::position::Position;
use soul::chess::types::Color;
use soul::protocols::xboard::{Mode, Setup, Upkeep, XBoardAction, XBoardState};

fn session() -> XBoardState {
    XBoardState::new(&Position::from_fen(STARTPOS))
}

fn say(s: &mut XBoardState, line: &str) -> XBoardAction {
    s.handle_command(line, None)
}

fn text(v: &[char]) -> String {
    v.iter().collect()
}

#[test]
fn the_engine_answers_once_it_is_its_turn() {
    let mut s = session();
    assert!(matches!(say(&mut s, "new"), XBoardAction::NewGame));
    assert_eq!((s.setup.mode, s.setup.engine_side), (Mode::Normal, Some(Color::Black)));
    match say(&mut s, "usermove e2e4") {
        XBoardAction::Moved { drawn, search } => assert!(!drawn && search.is_some()),
        _ => panic!("the move was not played"),
    }
    match say(&mut s, "e7e5") {
        XBoardAction::Moved { drawn, search } => assert!(!drawn && search.is_none()),
        _ => panic!("the move was not played"),
    }
}

#[test]
fn force_mode_only_keeps_the_score() {
    let mut s = session();
    say(&mut s, "new");
    assert!(matches!(say(&mut s, "force"), XBoardAction::Stop));
    for mv in ["g1f3", "g8f6", "f3g1", "f6g8", "g1f3", "g8f6", "f3g1"] {
        match say(&mut s, mv) {
            XBoardAction::Moved { drawn, search } => assert!(!drawn && search.is_none(), "{mv}"),
            _ => panic!("{mv} was not played"),
        }
    }
    match say(&mut s, "f6g8") {
        XBoardAction::Moved { drawn, .. } => assert!(drawn, "a third occurrence is a draw"),
        _ => panic!("the move was not played"),
    }
}

#[test]
fn time_and_otim_land_on_different_clocks() {
    let mut s = session();
    s.setup.engine_side = Some(Color::Black);
    say(&mut s, "time 500");
    say(&mut s, "otim 700");
    assert_eq!((s.setup.btime, s.setup.wtime), (5000, 7000));
    s.setup.engine_side = None;
    say(&mut s, "time 100");
    say(&mut s, "otim 200");
    assert_eq!((s.setup.wtime, s.setup.btime), (1000, 2000));
    say(&mut s, "time soon");
    assert_eq!(s.setup.wtime, 1000);
}

#[test]
fn level_reads_minutes_and_seconds() {
    let mut s = session();
    s.handle_command("level 40 5 0", Some(0));
    assert_eq!((s.setup.movestogo, s.setup.wtime, s.setup.btime, s.setup.winc), (40, 300_000, 300_000, 0));
    s.handle_command("level 0 2:30 0.5", Some(500));
    assert_eq!((s.setup.movestogo, s.setup.wtime, s.setup.winc, s.setup.binc), (0, 150_000, 500, 500));
    s.handle_command("level x y", None);
    assert_eq!((s.setup.movestogo, s.setup.wtime, s.setup.winc), (0, 0, 500));
    s.handle_command("level", None);
    assert_eq!(s.setup.wtime, 0);
}

#[test]
fn a_node_rate_caps_a_fixed_time() {
    let mut s = session();
    say(&mut s, "st 3");
    say(&mut s, "nps 1000");
    say(&mut s, "sd 6");
    assert_eq!((s.setup.movetime, s.setup.nps, s.setup.depth), (3000, Some(1000), 6));
    let l = s.setup.limits();
    assert_eq!((l.nodes, l.movetime, l.depth), (3000, 3000, 6));
    say(&mut s, "nps 0");
    assert_eq!(s.setup.nps, None);
    assert_eq!(s.setup.limits().nodes, 0);
}

#[test]
fn analysis_runs_until_it_is_left() {
    let mut s = session();
    match say(&mut s, "analyze") {
        XBoardAction::Search(l) => assert!(l.infinite),
        _ => panic!("no search"),
    }
    assert_eq!(s.setup.mode, Mode::Analyze);
    assert!(matches!(say(&mut s, "exit"), XBoardAction::Stop));
    assert_eq!((s.setup.mode, s.setup.infinite), (Mode::Normal, false));
    assert!(matches!(say(&mut s, "go"), XBoardAction::Search(_)));
    assert_eq!(s.setup.engine_side, Some(Color::White));
}

#[test]
fn colours_hand_the_turn_over() {
    let mut s = session();
    let key = s.game.board.hash;
    say(&mut s, "black");
    assert_eq!((s.game.board.stm, s.setup.engine_side), (Color::Black, Some(Color::White)));
    assert_ne!(s.game.board.hash, key);
    say(&mut s, "black");
    assert_eq!(s.game.board.stm, Color::Black);
    say(&mut s, "white");
    assert_eq!((s.game.board.stm, s.game.board.hash), (Color::White, key));
    assert_eq!(s.setup.engine_side, Some(Color::Black));
}

#[test]
fn a_board_is_set_up_or_refused() {
    let mut s = session();
    assert!(matches!(say(&mut s, "setboard 4k3/8/8/8/8/8/8/4K2R w K - 0 1"), XBoardAction::Placed));
    assert_eq!(s.game.board.hash, Position::from_fen("4k3/8/8/8/8/8/8/4K2R w K - 0 1").hash);
    assert!(matches!(say(&mut s, "setboard 4k3/8/8/8/8/8/8/4K2R"), XBoardAction::BadFen(FenError::Fields)));
}

#[test]
fn memory_cores_and_options_keep_their_ranges() {
    let mut s = session();
    assert!(matches!(say(&mut s, "memory 128"), XBoardAction::Upkeep(Upkeep::Resize(128))));
    assert!(matches!(say(&mut s, "memory 0"), XBoardAction::Upkeep(Upkeep::Resize(1))));
    assert!(matches!(say(&mut s, "cores 8"), XBoardAction::Rethread(8)));
    assert!(matches!(say(&mut s, "cores 8"), XBoardAction::Nothing));
    assert!(matches!(say(&mut s, "cores 5000"), XBoardAction::Rethread(1024)));
    assert!(matches!(say(&mut s, "option Hash=32"), XBoardAction::Upkeep(Upkeep::Resize(32))));
    say(&mut s, "option Overhead = 9999");
    assert_eq!(s.setup.overhead, 2000);
    say(&mut s, "option ShowWDL=1");
    assert!(s.setup.show_wdl);
    say(&mut s, "option ShowWDL=256");
    assert!(s.setup.show_wdl);
    say(&mut s, "option ShowWDL=0=1");
    assert!(s.setup.show_wdl);
}

#[test]
fn the_rest_is_answered_or_named() {
    let mut s = session();
    match say(&mut s, "ping 17") {
        XBoardAction::Pong(w) => assert_eq!(text(&w), "17"),
        _ => panic!("no pong"),
    }
    assert!(matches!(say(&mut s, "ping"), XBoardAction::Nothing));
    assert!(matches!(say(&mut s, "protover 2"), XBoardAction::Features));
    assert!(matches!(say(&mut s, "protover 1"), XBoardAction::Nothing));
    assert!(matches!(say(&mut s, "accepted ping"), XBoardAction::Nothing));
    assert!(matches!(say(&mut s, "xboard"), XBoardAction::Nothing));
    assert!(matches!(say(&mut s, "result 1-0"), XBoardAction::Stop));
    assert!(matches!(say(&mut s, "quit"), XBoardAction::Quit));
    match say(&mut s, "usermove e2e5") {
        XBoardAction::IllegalMove(w) => assert_eq!(text(&w), "e2e5"),
        _ => panic!("an illegal move was played"),
    }
    match say(&mut s, "hint") {
        XBoardAction::UnknownCommand(w) => assert_eq!(text(&w), "hint"),
        _ => panic!("an unknown command was understood"),
    }
}

#[test]
fn a_new_game_forgets_the_limits() {
    let mut s = session();
    say(&mut s, "st 5");
    say(&mut s, "sd 4");
    say(&mut s, "new");
    let fresh = Setup::new();
    assert_eq!((s.setup.movetime, s.setup.depth), (fresh.movetime, fresh.depth));
}
