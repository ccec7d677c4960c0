use std::time::{Duration, Instant};

use chess_engine::board::piece::Color;
use chess_engine::clock::TimeSpan;
use chess_engine::evaluate::MATE;
use chess_engine::search::MAX_SEARCH_DEPTH;
use chess_engine::uci::{Engine, score_text};

fn words(line: &[&str]) -> Vec<String> {
    line.iter().map(|word| word.to_string()).collect()
}

#[test]
fn a_plain_score_is_centipawns() {
    assert_eq!(score_text(35), "cp 35");
    assert_eq!(score_text(-120), "cp -120");
}

#[test]
fn a_mate_score_is_a_distance_in_moves() {
    assert_eq!(score_text(MATE - 1), "mate 1");
    assert_eq!(score_text(MATE - 3), "mate 2");
    assert_eq!(score_text(-(MATE - 3)), "mate -2");
}

#[test]
fn moves_are_replayed_onto_the_position() {
    let mut engine = Engine::new();
    engine.handle("position startpos moves e2e4 e7e5");
    assert_eq!(engine.board().turn(), Color::White);
    assert!(engine.board().piece_at(28).is_some(), "e4 is empty");
}

#[test]
fn a_bad_fen_changes_nothing() {
    let mut engine = Engine::new();
    engine.handle("position startpos moves d2d4");
    let before = engine.board().to_fen();
    engine.handle("position fen not-a-fen at all 0 1");
    assert_eq!(engine.board().to_fen(), before);
}

#[test]
fn an_option_name_may_have_spaces_in_it() {
    let mut engine = Engine::new();
    engine.handle("setoption name Move Overhead value 900");
    assert_eq!(engine.move_overhead(), TimeSpan::from_millis(900));
}

#[test]
fn a_depth_only_go_is_bounded_by_that_depth() {
    let engine = Engine::new();
    let limits = engine.limits_from(&words(&["depth", "4"]));
    assert_eq!(limits.max_depth, 4);
    assert!(limits.deadline.is_none());
}

#[test]
fn a_clock_becomes_a_deadline() {
    let engine = Engine::new();
    let limits = engine.limits_from(&words(&["wtime", "60000", "btime", "60000", "winc", "0"]));
    assert_eq!(limits.max_depth, MAX_SEARCH_DEPTH);
    let deadline = limits.deadline.expect("a clock gave no deadline");
    let budget = deadline - Instant::now();
    // a twentieth of the minute that is left, near enough either way
    assert!(
        budget > Duration::from_millis(2_500) && budget < Duration::from_millis(3_500),
        "{budget:?} out of a 60s clock"
    );
}

#[test]
fn a_nearly_dead_clock_still_gets_a_deadline() {
    let engine = Engine::new();
    let limits = engine.limits_from(&words(&["wtime", "50", "btime", "60000"]));
    assert!(limits.deadline.is_some());
}

// the protocol's small talk
#[test]
fn the_engine_answers_the_handshake() {
    let mut engine = Engine::new();
    let reply = engine.handle("isready");
    assert!(reply.keep_going);
    assert_eq!(reply.lines, vec!["readyok".to_string()]);

    let reply = engine.handle("uci");
    assert_eq!(reply.lines.last().map(|line| line.as_str()), Some("uciok"));
    assert!(reply.lines.iter().any(|line| line == "option name Hash type spin default 64 min 1 max 4096"));

    assert!(!engine.handle("quit").keep_going);
    let reply = engine.handle("   ");
    assert!(reply.keep_going && reply.lines.is_empty());
    assert!(engine.handle("something unknown").lines.is_empty());
}

// a go line is answered with a move, and infinite is a search to the default depth
#[test]
fn a_go_is_answered_with_a_move() {
    let mut engine = Engine::new();
    engine.handle("position startpos moves e2e4");
    let reply = engine.handle("go depth 2");
    let last = reply.lines.last().expect("no answer");
    assert!(last.starts_with("bestmove "), "{last}");
    assert_eq!(reply.lines.len(), 3, "{:?}", reply.lines);
    assert!(reply.lines[0].starts_with("info depth 1 score cp "), "{:?}", reply.lines);

    let limits = engine.limits_from(&words(&["infinite"]));
    assert_eq!(limits.max_depth, 6);
    assert!(limits.deadline.is_none());
}

// a movetime beats the clock, and both are spent net of the overhead
#[test]
fn a_movetime_is_spent_less_the_overhead() {
    let engine = Engine::new();
    let limits = engine.limits_from(&words(&["movetime", "1000", "wtime", "5", "depth", "70"]));
    assert_eq!(limits.max_depth, MAX_SEARCH_DEPTH);
    let budget = limits.deadline.expect("a movetime gave no deadline") - Instant::now();
    assert!(budget <= Duration::from_millis(700) && budget > Duration::from_millis(500), "{budget:?}");

    let limits = engine.limits_from(&words(&["depth", "nine"]));
    assert_eq!(limits.max_depth, 6);
}

// a finished game still gets an answer, and a malformed move stops the replay
#[test]
fn a_mated_side_answers_with_no_move() {
    let mut engine = Engine::new();
    engine.handle("position startpos moves f2f3 e7e5 g2g4 d8h4");
    let reply = engine.handle("go depth 1");
    assert_eq!(reply.lines, vec!["bestmove 0000".to_string()]);

    let reply = engine.handle("position startpos moves e2e4 nonsense e7e5");
    assert_eq!(reply.lines, vec!["info string bad move: nonsense".to_string()]);
    assert_eq!(engine.board().turn(), Color::Black);
}

#[test]
fn a_go_line_spends_what_its_clock_allows() {
    let engine = Engine::new();
    assert_eq!(engine.go_budget(&words(&["movetime", "1000"])), Some(TimeSpan::from_millis(700)));
    assert_eq!(engine.go_budget(&words(&["movetime", "200"])), Some(TimeSpan::zero()));
    // a twentieth of what is left once the overhead is held back
    assert_eq!(
        engine.go_budget(&words(&["wtime", "60000", "btime", "1000", "winc", "0"])),
        Some(TimeSpan::from_millis(2_985))
    );
    // four fifths of the increment on top
    assert_eq!(
        engine.go_budget(&words(&["wtime", "60000", "btime", "1000", "winc", "1000"])),
        Some(TimeSpan::from_millis(3_785))
    );
    assert_eq!(engine.go_budget(&words(&["depth", "4"])), None);
    assert_eq!(engine.go_budget(&words(&["wtime", "60000", "infinite"])), None);
}

#[test]
fn a_bad_fen_or_move_is_reported() {
    let mut engine = Engine::new();
    let reply = engine.handle("position fen not a fen");
    assert_eq!(reply.lines.len(), 1);
    assert!(reply.lines[0].starts_with("info string bad fen: "), "{:?}", reply.lines);
    let reply = engine.handle("position startpos moves e2e4 e7e5 e3e4 d2d4");
    assert_eq!(reply.lines, vec!["info string bad move: e3e4".to_string()]);
    assert_eq!(engine.board().history_len(), 2);
}

#[test]
fn a_hash_option_too_large_is_ignored_and_the_book_can_be_turned_off() {
    let mut engine = Engine::new();
    engine.handle("setoption name Move Overhead value 50");
    assert_eq!(engine.move_overhead(), TimeSpan::from_millis(50));
    engine.handle("setoption name Move Overhead value soon");
    assert_eq!(engine.move_overhead(), TimeSpan::from_millis(50));
    engine.handle("setoption name Hash value 99999999999999999999999");
    assert_eq!(engine.go_budget(&words(&["movetime", "100"])), Some(TimeSpan::from_millis(50)));
}
