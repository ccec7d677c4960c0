use std::time::{Duration, Instant};

use chess_engine::board::board::Board;
use chess_engine::board::chess_move::Move;
use chess_engine::board::piece::{Color, Piece, PieceType};
use chess_engine::clock::TimeSpan;
use chess_engine::evaluate::{MATE, TOTAL_PHASE, game_phase_count, piece_value};
use chess_engine::search::exchange::see;
use chess_engine::search::ordering::{MoveOrder, move_score};
use chess_engine::search::perft::{count_positions, count_positions_checked};
use chess_engine::search::{
    DELTA_ENDGAME_PHASE, DELTA_MARGIN, INFINITY, MAX_PLY, Search, SearchLimits, SearchResult, delta_margin,
    terminal_score,
};

fn start_position() -> Board {
    let mut board = Board::new();
    board.set_start_position();
    board
}

// a small table of its own, and no book, since these tests are about the searching
fn search() -> Search {
    Search::without_book(1)
}

fn find_best_move(board: &mut Board, depth: u32) -> SearchResult {
    search().find_best_move(board, depth)
}

fn ordered(order: &mut MoveOrder) -> Vec<Move> {
    let mut moves = Vec::new();
    while let Some(chess_move) = order.next() {
        moves.push(chess_move);
    }
    moves
}

// the published perft numbers for the starting position
#[test]
fn perft_from_the_start_position() {
    let expected = [1, 20, 400, 8_902, 197_281];
    let mut board = start_position();
    for (depth, &positions) in expected.iter().enumerate() {
        assert_eq!(count_positions(&mut board, depth as u32), positions, "at depth {depth}");
    }
}

#[test]
fn searching_does_not_change_the_position() {
    let mut board = start_position();
    let hash_before = board.hash();
    find_best_move(&mut board, 3);
    assert_eq!(board.hash(), hash_before);
}

// plain negamax, no window, no cutoffs and no table: the answer alpha_beta must match
fn negamax(search: &mut Search, board: &mut Board, depth: u32, ply: u32) -> i32 {
    if ply > 0 && board.is_repetition_draw(ply) {
        return 0;
    }
    if depth == 0 {
        return search.quiescence(board, -INFINITY, INFINITY, ply);
    }
    let moves = board.legal_moves();
    if moves.is_empty() {
        return terminal_score(board, ply);
    }
    if board.is_fifty_move_draw() {
        return 0;
    }
    let mut best = -INFINITY;
    for chess_move in moves {
        board.make_move(&chess_move);
        best = best.max(-negamax(search, board, depth - 1, ply + 1));
        board.undo_move();
    }
    best
}

fn queen_against_pawns() -> Board {
    let mut board = Board::new();
    board.add_piece(Piece::new(PieceType::King, Color::White), 4);
    board.add_piece(Piece::new(PieceType::Queen, Color::White), 3);
    board.add_piece(Piece::new(PieceType::Pawn, Color::White), 8);
    board.add_piece(Piece::new(PieceType::King, Color::Black), 63);
    board.add_piece(Piece::new(PieceType::Pawn, Color::Black), 44);
    board.add_piece(Piece::new(PieceType::Pawn, Color::Black), 55);
    board
}

#[test]
fn a_defended_pawn_is_not_taken_by_the_queen() {
    let mut board = Board::new();
    board.add_piece(Piece::new(PieceType::King, Color::White), 4);
    board.add_piece(Piece::new(PieceType::Queen, Color::White), 3);
    board.add_piece(Piece::new(PieceType::Pawn, Color::White), 8);
    board.add_piece(Piece::new(PieceType::King, Color::Black), 63);
    board.add_piece(Piece::new(PieceType::Pawn, Color::Black), 35);
    board.add_piece(Piece::new(PieceType::Pawn, Color::Black), 44);
    board.add_piece(Piece::new(PieceType::Pawn, Color::Black), 55);

    let result = find_best_move(&mut board, 1);
    let best = result.best_move.expect("white has moves");
    assert_ne!((best.from, best.to), (3, 35), "the queen took a pawn that the e6 pawn defends");
}

#[test]
fn the_queen_is_not_walked_onto_a_pawn() {
    let mut board = queen_against_pawns();
    let result = find_best_move(&mut board, 4);
    let best = result.best_move.expect("white has moves");
    assert_ne!((best.from, best.to), (3, 35), "the queen stepped onto d5, where the e6 pawn takes it");
    assert!(result.score > 500, "white is a queen up but the search scored {}", result.score);
}

#[test]
fn pruning_does_not_change_the_score() {
    let mut board = start_position();
    for depth in 1..=3 {
        let searched = find_best_move(&mut board, depth);
        assert_eq!(searched.score, negamax(&mut search(), &mut board, depth, 0), "at depth {depth}");
    }
}

#[test]
fn a_finished_game_scores_as_mate_or_draw() {
    // fool's mate: 1. f3 e5 2. g4 Qh4#
    let mut mated = start_position();
    mated.make_move_from_squares(13, 21, None);
    mated.make_move_from_squares(52, 36, None);
    mated.make_move_from_squares(14, 30, None);
    mated.make_move_from_squares(59, 31, None);
    assert!(mated.is_checkmate());
    assert_eq!(find_best_move(&mut mated, 3).score, -MATE);

    let mut stalemated = Board::new();
    stalemated.add_piece(Piece::new(PieceType::King, Color::Black), 63);
    stalemated.add_piece(Piece::new(PieceType::King, Color::White), 53);
    stalemated.add_piece(Piece::new(PieceType::Queen, Color::White), 38);
    stalemated.make_move_from_squares(38, 46, None);
    assert!(stalemated.is_stalemate());
    assert_eq!(find_best_move(&mut stalemated, 3).score, 0);
}

fn mate_in_one() -> Board {
    let mut board = Board::new();
    board.add_piece(Piece::new(PieceType::King, Color::White), 4);
    board.add_piece(Piece::new(PieceType::King, Color::Black), 63);
    board.add_piece(Piece::new(PieceType::Rook, Color::White), 48);
    board.add_piece(Piece::new(PieceType::Rook, Color::White), 1);
    board
}

#[test]
fn a_mate_on_the_horizon_is_found() {
    let mut board = mate_in_one();
    let result = find_best_move(&mut board, 1);
    assert_eq!(result.score, MATE - 1, "the mate was not seen at the leaf");
}

#[test]
fn the_search_deepens_one_ply_at_a_time() {
    let mut board = start_position();
    let result = find_best_move(&mut board, 4);
    assert_eq!(result.depth, 4);
    assert_eq!(result.passes.len(), 4);
    let mut nodes = 0;
    for (index, pass) in result.passes.iter().enumerate() {
        assert_eq!(pass.depth, index as u32 + 1, "the passes skipped a depth");
        assert!(pass.best_move.is_some(), "a pass came back with no move");
        assert!(pass.positions_searched >= nodes, "at depth {}", pass.depth);
        nodes = pass.positions_searched;
    }
    let last = result.passes.last().expect("four passes");
    assert_eq!(last.best_move, result.best_move);
    assert_eq!(last.score, result.score);
    assert_eq!(nodes, result.positions_searched);
}

#[test]
fn a_proved_mate_stops_the_deepening() {
    let mut board = mate_in_one();
    let result = find_best_move(&mut board, 5);
    assert_eq!(result.score, MATE - 1);
    assert_eq!(result.depth, 1, "the deepening carried on past a mate in one");
    assert_eq!(result.passes.len(), 1);
}

#[test]
fn deepening_scores_a_position_as_a_single_pass_does() {
    let mut board = queen_against_pawns();
    for depth in 1..=4 {
        let deepened = find_best_move(&mut board, depth);
        let (_, single) = search().search_root(&mut board, depth, None);
        assert_eq!(deepened.score, single, "at depth {depth}");
    }
}

#[test]
fn a_hanging_queen_is_taken() {
    let mut board = Board::new();
    board.add_piece(Piece::new(PieceType::King, Color::White), 4);
    board.add_piece(Piece::new(PieceType::King, Color::Black), 60);
    board.add_piece(Piece::new(PieceType::Rook, Color::White), 0);
    board.add_piece(Piece::new(PieceType::Queen, Color::Black), 8);

    let result = find_best_move(&mut board, 2);
    let best = result.best_move.expect("white has moves");
    assert_eq!((best.from, best.to), (0, 8), "white played something else");
    assert!(result.score > 400, "a rook against a bare king scored {}", result.score);
}

#[test]
fn the_best_capture_leads_and_a_pawn_covered_square_trails() {
    let mut board = Board::new();
    board.add_piece(Piece::new(PieceType::King, Color::White), 4);
    board.add_piece(Piece::new(PieceType::King, Color::Black), 63);
    board.add_piece(Piece::new(PieceType::Rook, Color::White), 0);
    board.add_piece(Piece::new(PieceType::Queen, Color::Black), 56);
    board.add_piece(Piece::new(PieceType::Pawn, Color::Black), 41);

    let mut order = MoveOrder::new();
    order.load(&board, None, [None, None]);
    let ordered = ordered(&mut order);

    let first = ordered.first().expect("white has moves");
    assert_eq!((first.from, first.to), (0, 56), "Rxa8 was not searched first");
    let last = ordered.last().expect("white has moves");
    assert_eq!((last.from, last.to), (0, 32), "Ra5, where b6 takes it, was not last");
}

#[test]
fn the_ordering_hands_out_every_move_once_best_first() {
    let board = start_position();
    let moves = board.legal_moves();

    let mut order = MoveOrder::new();
    order.load(&board, None, [None, None]);
    let ordered = ordered(&mut order);

    assert_eq!(ordered.len(), moves.len(), "the move list changed length");
    for chess_move in &moves {
        assert_eq!(
            ordered.iter().filter(|&handed| handed == chess_move).count(),
            1,
            "{chess_move:?} was dropped or handed out twice"
        );
    }
    let scores: Vec<i32> = ordered.iter().map(|chess_move| move_score(&board, chess_move, [None, None])).collect();
    assert!(scores.windows(2).all(|pair| pair[0] >= pair[1]), "the moves did not come out best first: {scores:?}");
}

fn capture_of(board: &Board, from: u8, to: u8) -> Move {
    board
        .legal_captures()
        .into_iter()
        .find(|candidate| candidate.from == from && candidate.to == to)
        .expect("that capture is legal here")
}

#[test]
fn the_delta_margin_goes_out_in_the_endgame() {
    assert_eq!(delta_margin(&start_position()), DELTA_MARGIN);

    let mut endgame = Board::new();
    endgame.add_piece(Piece::new(PieceType::King, Color::White), 4);
    endgame.add_piece(Piece::new(PieceType::King, Color::Black), 60);
    endgame.add_piece(Piece::new(PieceType::Rook, Color::White), 0);
    assert_eq!(delta_margin(&endgame), 0);

    // a queen and a rook are a phase of exactly a quarter, which the line lets through
    let mut boundary = Board::new();
    boundary.add_piece(Piece::new(PieceType::King, Color::White), 4);
    boundary.add_piece(Piece::new(PieceType::King, Color::Black), 60);
    boundary.add_piece(Piece::new(PieceType::Queen, Color::White), 3);
    boundary.add_piece(Piece::new(PieceType::Rook, Color::Black), 56);
    assert_eq!(game_phase_count(&boundary) * 4, TOTAL_PHASE);
    assert_eq!(game_phase_count(&boundary), DELTA_ENDGAME_PHASE);
    assert_eq!(delta_margin(&boundary), 0);
}

#[test]
fn see_wins_an_undefended_piece() {
    let mut board = Board::new();
    board.add_piece(Piece::new(PieceType::King, Color::White), 4);
    board.add_piece(Piece::new(PieceType::King, Color::Black), 63);
    board.add_piece(Piece::new(PieceType::Rook, Color::White), 0);
    board.add_piece(Piece::new(PieceType::Queen, Color::Black), 8);
    let capture = capture_of(&board, 0, 8);
    assert_eq!(see(&board, &capture), piece_value(PieceType::Queen) as i32);
}

#[test]
fn see_refuses_a_capture_the_recapture_wins_back() {
    let mut board = Board::new();
    board.add_piece(Piece::new(PieceType::King, Color::White), 4);
    board.add_piece(Piece::new(PieceType::Queen, Color::White), 3);
    board.add_piece(Piece::new(PieceType::King, Color::Black), 63);
    board.add_piece(Piece::new(PieceType::Pawn, Color::Black), 35);
    board.add_piece(Piece::new(PieceType::Pawn, Color::Black), 44);
    let capture = capture_of(&board, 3, 35);
    assert_eq!(see(&board, &capture), (piece_value(PieceType::Pawn) - piece_value(PieceType::Queen)) as i32);
}

#[test]
fn see_counts_an_even_trade_as_nothing() {
    let mut board = Board::new();
    board.add_piece(Piece::new(PieceType::King, Color::White), 4);
    board.add_piece(Piece::new(PieceType::King, Color::Black), 63);
    board.add_piece(Piece::new(PieceType::Pawn, Color::White), 28);
    board.add_piece(Piece::new(PieceType::Pawn, Color::Black), 35);
    board.add_piece(Piece::new(PieceType::Pawn, Color::Black), 42);
    let capture = capture_of(&board, 28, 35);
    assert_eq!(see(&board, &capture), 0);
}

#[test]
fn see_counts_the_slider_a_capture_uncovers() {
    let mut board = Board::new();
    board.add_piece(Piece::new(PieceType::King, Color::White), 4);
    board.add_piece(Piece::new(PieceType::King, Color::Black), 63);
    board.add_piece(Piece::new(PieceType::Rook, Color::White), 3);
    board.add_piece(Piece::new(PieceType::Rook, Color::White), 11);
    board.add_piece(Piece::new(PieceType::Pawn, Color::Black), 35);
    board.add_piece(Piece::new(PieceType::Pawn, Color::Black), 44);
    board.add_piece(Piece::new(PieceType::Rook, Color::Black), 59);
    let capture = capture_of(&board, 11, 35);
    assert_eq!(see(&board, &capture), (piece_value(PieceType::Pawn) - piece_value(PieceType::Rook)) as i32);
}

#[test]
fn mate_in_one_is_found() {
    let mut board = mate_in_one();
    let result = find_best_move(&mut board, 3);
    let best = result.best_move.expect("white has moves");
    assert!(result.score > MATE - 100, "the mate scored {} instead", result.score);
    board.make_move(&best);
    assert!(board.is_checkmate(), "the move played was not mate");
}

#[test]
fn a_second_search_of_a_position_answers_as_the_first_did() {
    for mut board in [start_position(), mate_in_one()] {
        let mut engine = search();
        let first = engine.find_best_move(&mut board, 3);
        let second = engine.find_best_move(&mut board, 3);
        assert_eq!(second.score, first.score, "the score moved on the second search");
        assert_eq!(second.best_move, first.best_move, "the move moved on the second search");
    }
}

#[test]
fn a_second_search_of_a_position_is_the_cheaper_one() {
    let mut board = start_position();
    let mut engine = search();
    let first = engine.find_best_move(&mut board, 3);
    let second = engine.find_best_move(&mut board, 3);
    assert!(
        second.positions_searched < first.positions_searched,
        "the second search cost {} against the first {}",
        second.positions_searched,
        first.positions_searched
    );
    assert!(second.table_cutoffs > 0, "the table answered nothing");
}

#[test]
fn a_mate_keeps_its_distance_across_searches() {
    let mut board = mate_in_one();
    let mut engine = search();
    engine.find_best_move(&mut board, 3);
    let again = engine.find_best_move(&mut board, 3);
    assert_eq!(again.score, MATE - 1, "the mate came back as {}", again.score);
}

#[test]
fn the_stored_move_is_handed_out_first() {
    let board = start_position();
    let moves = board.legal_moves();
    let table_move = *moves
        .iter()
        .find(|chess_move| (chess_move.from, chess_move.to) == (1, 18))
        .expect("Nb1c3 is legal");
    let mut order = MoveOrder::new();
    order.load(&board, Some(table_move), [None, None]);
    let ordered = ordered(&mut order);
    assert_eq!(ordered[0], table_move, "the stored move was not searched first");
}

#[test]
fn a_killer_is_handed_out_after_the_captures_and_before_the_quiet_moves() {
    let mut board = Board::new();
    board.add_piece(Piece::new(PieceType::King, Color::White), 4);
    board.add_piece(Piece::new(PieceType::King, Color::Black), 63);
    board.add_piece(Piece::new(PieceType::Rook, Color::White), 0);
    board.add_piece(Piece::new(PieceType::Queen, Color::Black), 56);
    board.add_piece(Piece::new(PieceType::Knight, Color::White), 6);

    let moves = board.legal_moves();
    let killer = *moves
        .iter()
        .find(|chess_move| (chess_move.from, chess_move.to) == (6, 21))
        .expect("Ng1f3 is legal");

    let mut order = MoveOrder::new();
    order.load(&board, None, [Some(killer), None]);
    let ordered = ordered(&mut order);

    let first = ordered.first().expect("white has moves");
    assert_eq!((first.from, first.to), (0, 56), "the capture lost its place");
    assert_eq!(ordered[1], killer, "the killer was not second");
}

#[test]
fn a_quiet_move_that_beats_beta_is_kept_as_a_killer() {
    let mut engine = search();
    let mut board = start_position();
    engine.find_best_move(&mut board, 4);

    let killers: Vec<Option<Move>> = (0..MAX_PLY).flat_map(|ply| engine.killers_at(ply)).collect();
    let kept = killers.iter().filter(|killer| killer.is_some()).count();
    assert!(kept > 0, "no quiet cutoff was remembered in a whole search");
    for killer in killers.iter().flatten() {
        assert!(killer.captured.is_none(), "{killer:?} takes something");
        assert!(killer.promotion.is_none(), "{killer:?} promotes");
    }
}

#[test]
fn a_tied_move_that_does_not_repeat_is_preferred() {
    let mut board = Board::new();
    board.add_piece(Piece::new(PieceType::King, Color::White), 0);
    board.add_piece(Piece::new(PieceType::King, Color::Black), 63);
    board.make_move_from_squares(0, 8, None);
    board.make_move_from_squares(63, 55, None);
    board.make_move_from_squares(8, 0, None);
    board.make_move_from_squares(55, 63, None);

    let result = find_best_move(&mut board, 1);
    let best = result.best_move.expect("white has moves");
    assert_ne!((best.from, best.to), (0, 8), "the search repeated Ka1-a2 over an equally scored fresh move");
}

#[test]
fn a_position_the_book_does_not_hold_is_searched() {
    let mut board = queen_against_pawns();
    let mut engine = Search::new(1);
    let result = engine.find_best_move(&mut board, 3);
    assert!(!result.from_book, "an endgame came out of an opening book");
    assert!(result.positions_searched > 1, "nothing was searched");
}

#[test]
fn a_depth_limit_searches_what_a_depth_did() {
    let mut board = queen_against_pawns();
    let plain = find_best_move(&mut board, 4);
    let limited = search().find_best_move_limited(&mut board, &SearchLimits::depth(4));
    assert_eq!(limited.best_move, plain.best_move);
    assert_eq!(limited.score, plain.score);
    assert_eq!(limited.depth, plain.depth);
    assert!(!limited.aborted, "an untimed search stopped on a clock");
}

#[test]
fn a_timed_search_stops_near_its_deadline() {
    let mut board = queen_against_pawns();
    let budget = Duration::from_millis(300);
    let started = Instant::now();
    let result = search().find_best_move_limited(&mut board, &SearchLimits::timed(TimeSpan::from_millis(300)));
    let elapsed = started.elapsed();
    assert!(result.best_move.is_some(), "a timed search found no move");
    assert!(result.depth >= 1, "not even one pass finished");
    assert!(elapsed < budget * 4, "a {budget:?} search ran for {elapsed:?}");
}

#[test]
fn a_search_given_no_time_still_returns_a_move() {
    let mut board = queen_against_pawns();
    let result = search().find_best_move_limited(&mut board, &SearchLimits::timed(TimeSpan::zero()));
    let best = result.best_move.expect("no move came back at all");
    assert!(board.legal_moves().contains(&best), "{best:?} is not legal");
    assert_eq!(result.depth, 1, "more than the first pass was kept");
}

#[test]
fn a_forced_move_is_played_without_thinking() {
    let mut board = Board::new();
    board.add_piece(Piece::new(PieceType::King, Color::White), 0);
    board.add_piece(Piece::new(PieceType::King, Color::Black), 62);
    board.add_piece(Piece::new(PieceType::Rook, Color::Black), 56);
    board.add_piece(Piece::new(PieceType::Rook, Color::Black), 9);
    assert_eq!(board.legal_moves().len(), 1, "the position is not forced");

    let started = Instant::now();
    let result = search().find_best_move_limited(&mut board, &SearchLimits::timed(TimeSpan::from_secs(5)));
    let elapsed = started.elapsed();
    assert!(result.best_move.is_some(), "the forced move was not found");
    assert!(elapsed < Duration::from_secs(1), "a forced move took {elapsed:?} of a 5s budget");
}

#[test]
fn an_interrupted_search_answers_from_a_finished_pass() {
    let mut board = start_position();
    let mut engine = search();
    let result = engine.find_best_move_limited(&mut board, &SearchLimits::timed(TimeSpan::from_millis(200)));
    let best = result.best_move.expect("no move came back at all");
    assert!(board.legal_moves().contains(&best), "{best:?} is not legal");
    assert!(result.score.abs() < INFINITY, "an unfinished score was kept");
    assert_eq!(result.depth as usize, result.passes.len(), "a pass was recorded that the result did not come from");
}

#[test]
fn the_checked_count_agrees_where_the_count_fits() {
    let mut board = Board::new();
    board.set_start_position();
    assert_eq!(count_positions_checked(&mut board, 0), Some(1));
    assert_eq!(count_positions_checked(&mut board, 1), Some(20));
    assert_eq!(count_positions_checked(&mut board, 3), Some(8_902));
}

#[test]
fn the_cutoff_counters_add_up_and_nothing_is_reduced() {
    let mut board = Board::new();
    board.set_start_position();
    let mut search = Search::without_book(1);
    let result = search.find_best_move(&mut board, 4);
    assert!(result.beta_cutoffs > 0);
    assert!(result.killer_cutoffs <= result.beta_cutoffs);
    assert!(result.first_move_cutoffs <= result.beta_cutoffs);
    assert_eq!(result.lmr_reductions, 0);
    assert_eq!(result.lmr_researches, 0);
}
