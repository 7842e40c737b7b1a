//! A session spoken in UCI.

use soul::chess::fen::{FenError, STARTPOS};
use soul::chess::position::Position;
use soul::chess::types::Color;
use soul::engine::config::Limits;
use soul::protocols::notation::parse_uci_move;
use soul::protocols::uci::{parse_go_limits, UciAction, UciState, Upkeep};
use soul::text::{chars_of, words_of};

fn session() -> UciState {
    UciState::new(&Position::from_fen(STARTPOS))
}

fn limits(text: &str) -> Limits {
    let board = Position::from_fen(STARTPOS);
    parse_go_limits(&board, &words_of(&chars_of(text)), 0)
}

#[test]
fn go_words_set_their_limits() {
    let l = limits("wtime 8000 btime 7000 winc 80 binc 70 movestogo 40 depth 9 nodes 5000 softnodes 400 movetime 250");
    assert_eq!((l.wtime, l.btime, l.winc, l.binc, l.movestogo), (8000, 7000, 80, 70, 40));
    assert_eq!((l.depth, l.nodes, l.softnodes, l.movetime), (9, 5000, 400, 250));
    assert!(!l.infinite && l.mate.is_none() && l.perft.is_none());
    let l = limits("infinite mate 3 perft 4 hardnodes 77");
    assert!(l.infinite);
    assert_eq!((l.mate, l.perft, l.nodes), (Some(3), Some(4), 77));
}

#[test]
fn a_word_that_is_no_number_is_left_for_the_next_key() {
    let l = limits("depth nodes 10 unheard wtime");
    assert_eq!((l.depth, l.nodes, l.wtime), (0, 10, 0));
    let l = limits("mate depth 4");
    assert_eq!((l.mate, l.depth), (Some(0), 4));
    let l = limits("wtime -5 btime 6");
    assert_eq!((l.wtime, l.btime), (0, 6));
    let l = limits("depth -3 perft 256");
    assert_eq!((l.depth, l.perft), (-3, Some(0)));
}

#[test]
fn wanted_moves_end_at_the_first_word_that_is_no_move() {
    let board = Position::from_fen(STARTPOS);
    let l = limits("searchmoves e2e4 g1f3 depth 5");
    assert_eq!(l.searchmoves.len(), 2);
    assert_eq!(l.searchmoves[0], parse_uci_move(&board, "e2e4").unwrap());
    assert_eq!(l.searchmoves[1], parse_uci_move(&board, "g1f3").unwrap());
    assert_eq!(l.depth, 5);
    assert!(limits("searchmoves e2e5 e2e4").searchmoves.is_empty());
}

#[test]
fn positions_are_set_up_and_moves_played() {
    let mut s = session();
    assert!(matches!(s.process_command("position startpos moves e2e4 c7c5 g1f3"), UciAction::Placed(None)));
    assert_eq!(s.game.history.len(), 4);
    assert_eq!(s.game.board.stm, Color::Black);
    let fen = Position::from_fen("rnbqkbnr/pp1ppppp/8/2p5/4P3/5N2/PPPP1PPP/RNBQKB1R b KQkq - 1 2");
    assert_eq!(s.game.board.hash, fen.hash);

    let cmd = "position fen r3k2r/8/8/8/8/8/8/R3K2R w KQkq - 0 1 moves e1g1 e8c8";
    assert!(matches!(s.process_command(cmd), UciAction::Placed(None)));
    let after = Position::from_fen("2kr3r/8/8/8/8/8/8/R4RK1 w - - 2 2");
    assert_eq!(s.game.board.hash, after.hash);
    assert_eq!(s.game.history.len(), 3);
}

#[test]
fn play_stops_at_the_first_illegal_move() {
    let mut s = session();
    match s.process_command("position startpos moves e2e4 e2e4 d2d4") {
        UciAction::Placed(Some(i)) => assert_eq!(i, 4),
        _ => panic!("the second move was played"),
    }
    assert_eq!(s.game.history.len(), 2);
}

#[test]
fn a_faulty_position_changes_nothing() {
    let mut s = session();
    let before = s.game.board.hash;
    let bad = s.process_command("position fen 8/8/8/8/8/8/8/8 w - - 0 1");
    assert!(matches!(bad, UciAction::BadFen(FenError::Kings)));
    assert_eq!(s.game.board.hash, before);
    assert!(matches!(s.process_command("position"), UciAction::Nothing));
    assert!(matches!(s.process_command("position nowhere"), UciAction::Nothing));
    assert!(matches!(s.process_command("   "), UciAction::Nothing));
}

#[test]
fn options_are_set_within_their_ranges() {
    let mut s = session();
    assert!(matches!(s.process_command("setoption name Hash value 64"), UciAction::Upkeep(Upkeep::Resize(64))));
    assert_eq!(s.options.hash_size, 64);
    assert!(matches!(s.process_command("setoption name hash value 0"), UciAction::Upkeep(Upkeep::Resize(1))));
    assert!(matches!(s.process_command("setoption name HASH value 999999"), UciAction::Upkeep(Upkeep::Resize(65536))));
    assert!(matches!(s.process_command("setoption name Hash value much"), UciAction::Upkeep(Upkeep::Nothing)));
    s.process_command("setoption name Overhead value 5000");
    assert_eq!(s.options.overhead, 1000);
    assert!(matches!(s.process_command("setoption name Threads value 4"), UciAction::Upkeep(Upkeep::Rethread(4))));
    assert!(matches!(s.process_command("setoption name Threads value 4"), UciAction::Upkeep(Upkeep::Nothing)));
    assert!(matches!(s.process_command("setoption name Threads value none"), UciAction::Upkeep(Upkeep::Rethread(1))));
    assert!(matches!(s.process_command("setoption name UCI_ShowWDL value TRUE"), UciAction::Upkeep(Upkeep::WarnWdl)));
    assert!(s.options.show_wdl);
    s.process_command("setoption name UCI_ShowWDL value off");
    assert!(!s.options.show_wdl);
    s.process_command("setoption name UCI_ShowCurrMove value no");
    assert!(!s.options.show_currmove);
    s.process_command("setoption name PrettyPrint value y");
    assert!(s.options.pretty_print);
}

#[test]
fn chess960_reaches_the_next_position() {
    let mut s = session();
    assert!(!s.game.board.is_frc);
    s.process_command("setoption name UCI_Chess960 value true");
    assert!(!s.game.board.is_frc);
    s.process_command("position startpos");
    assert!(s.game.board.is_frc);
}

#[test]
fn terminals_are_told_apart() {
    let mut s = session();
    assert!(s.options.display().use_ansi);
    s.process_command("isatty stdout false");
    assert_eq!((s.options.stdout_isatty, s.options.stderr_isatty), (Some(false), None));
    assert!(!s.options.display().use_ansi);
    s.process_command("isatty STDERR yes");
    assert_eq!((s.options.stdout_isatty, s.options.stderr_isatty), (Some(false), Some(true)));
    s.process_command("isatty 1");
    assert_eq!((s.options.stdout_isatty, s.options.stderr_isatty), (Some(true), Some(true)));
    s.process_command("isatty stdout");
    assert_eq!(s.options.stdout_isatty, Some(true));
}

#[test]
fn toggles_report_their_new_state() {
    let mut s = session();
    assert!(matches!(s.process_command("gopretty"), UciAction::GoPretty(true)));
    assert!(matches!(s.process_command("gopretty"), UciAction::GoPretty(false)));
    assert!(matches!(s.process_command("pp"), UciAction::PrettyPrint(true)));
    assert!(matches!(s.process_command("uci"), UciAction::Identify));
    assert!(!s.options.pretty_print);
    assert!(matches!(s.process_command("prettyprint"), UciAction::PrettyPrint(true)));
}

#[test]
fn flipping_changes_the_side_and_the_key() {
    let mut s = session();
    let key = s.game.board.hash;
    assert!(matches!(s.process_command("flip"), UciAction::Flipped(Color::Black)));
    assert_ne!(s.game.board.hash, key);
    assert!(matches!(s.process_command("flip"), UciAction::Flipped(Color::White)));
    assert!(matches!(s.process_command("key"), UciAction::Key(k) if k == key));
    s.process_command("position fen 4k3/8/8/8/8/8/4r3/4K3 w - - 0 1");
    assert!(matches!(s.process_command("flip"), UciAction::CannotFlip));
}

#[test]
fn every_other_command_has_its_action() {
    let mut s = session();
    assert!(matches!(s.process_command("isready"), UciAction::Ready));
    assert!(matches!(s.process_command("stop"), UciAction::Stop));
    assert!(matches!(s.process_command("quit"), UciAction::Quit));
    assert!(matches!(s.process_command("license"), UciAction::License));
    assert!(matches!(s.process_command("d"), UciAction::Display));
    assert!(matches!(s.process_command("display"), UciAction::Display));
    assert!(matches!(s.process_command("fen"), UciAction::Fen));
    assert!(matches!(s.process_command("bench 7"), UciAction::Bench(7)));
    assert!(matches!(s.process_command("bench"), UciAction::Bench(0)));
    assert!(matches!(s.process_command("divide 3"), UciAction::Divide(3)));
    assert!(matches!(s.process_command("speedtest"), UciAction::Speedtest));
    let UciAction::Genfens(words) = s.process_command("genfens 5 seed 7") else { panic!("no words") };
    let words: Vec<String> = words.iter().map(|w| w.iter().collect()).collect();
    assert_eq!(words, ["5", "seed", "7"]);
    assert!(matches!(s.process_command("help"), UciAction::Help(true)));
    assert!(matches!(s.process_command("nonsense"), UciAction::Nothing));
    match s.process_command("go depth 3 searchmoves d2d4") {
        UciAction::Go(l) => assert_eq!((l.depth, l.searchmoves.len()), (3, 1)),
        _ => panic!("no search was asked for"),
    }
    s.process_command("position startpos moves e2e4");
    assert!(matches!(s.process_command("ucinewgame"), UciAction::NewGame));
    assert_eq!(s.game.history.len(), 1);
}

#[test]
fn the_initial_position_is_worth_the_move() {
    let mut s = session();
    match s.process_command("eval") {
        UciAction::Eval(e) => {
            assert_eq!((e.psqt, e.mobility, e.safety), (0, 0, 0));
            assert_eq!(e.bonus, 32);
            assert_eq!(e.total, 32);
        },
        _ => panic!("no evaluation"),
    }
}

#[test]
fn the_keys_of_a_game_follow_its_moves() {
    let mut s = session();
    s.process_command("position startpos moves e2e4 e7e5");
    let mut keys = vec![Position::from_fen(STARTPOS).hash];
    s.process_command("position startpos moves e2e4");
    keys.push(s.game.board.hash);
    s.process_command("position startpos moves e2e4 e7e5");
    keys.push(s.game.board.hash);
    assert_eq!(s.game.history, keys);
}

#[test]
fn played_moves_move_the_counters() {
    let mut s = session();
    assert!(matches!(s.process_command("position startpos moves g1f3 g8f6"), UciAction::Placed(None)));
    assert_eq!((s.game.board.halfmove_clock, s.game.board.fullmove_number), (2, 2));
    assert!(matches!(s.process_command("position startpos moves g1f3 g8f6 e2e4 f6e4 f3g1"), UciAction::Placed(None)));
    assert_eq!((s.game.board.halfmove_clock, s.game.board.fullmove_number), (1, 3));
}
