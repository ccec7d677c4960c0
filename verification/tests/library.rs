use chess_engine::board::board::Board;
use chess_engine::board::chess_move::parse_coordinates;
use chess_engine::board::piece::{Color, Piece, PieceType};
use chess_engine::clock::TimeControl;
use chess_engine::search::perft::count_positions;
use chess_engine::search::{DEFAULT_DEPTH, Search};
use chess_engine::settings::Settings;
use chess_engine::stockfish::{
    StockfishScore, TopLines, library_line, parse_eval, parse_info_line, split_tabs, starts_with_bestmove, token_after,
};
use chess_engine::storage::{read_saved_line, saved_line};
use chess_engine::text::{decimal, parse_signed, parse_unsigned, split_words};
use chess_engine::transposition::TranspositionTable;

const START_FEN: &str = "rnbqkbnr/pppppppp/8/8/8/8/PPPPPPPP/RNBQKBNR w KQkq - 0 1";

fn start_position() -> Board {
    Board::start_position()
}

#[test]
fn the_start_position_writes_the_known_fen() {
    assert_eq!(start_position().to_fen(), START_FEN);

    let mut board = start_position();
    board.make_move_from_squares(12, 28, None); // e2e4
    assert_eq!(board.to_fen(), "rnbqkbnr/pppppppp/8/8/4P3/8/PPPP1PPP/RNBQKBNR b KQkq e3 0 1");
}

#[test]
fn a_fen_reads_back_into_the_same_position() {
    let board = Board::from_fen(START_FEN).expect("the start position reads");
    assert_eq!(board.to_fen(), START_FEN);
    assert_eq!(board.legal_moves().len(), 20);
    assert_eq!(board.hash(), start_position().hash());

    let text = "r3k2r/8/8/3pP3/8/8/8/R3K2R w Kq d6 7 30";
    let board = Board::from_fen(text).expect("a middlegame reads");
    assert_eq!(board.en_passant_target(), Some(43));
    assert_eq!(board.halfmove_clock(), 7);
    assert!(board.castling_rights().get(Color::White, chess_engine::board::castling::CastleSide::King));
    assert!(!board.castling_rights().get(Color::White, chess_engine::board::castling::CastleSide::Queen));
    assert_eq!(board.piece_at(36), Some(Piece::new(PieceType::Pawn, Color::White)));
}

#[test]
fn a_malformed_fen_is_refused() {
    assert!(Board::from_fen("not-a-fen at all 0 1").is_err());
    assert!(Board::from_fen("8/8/8/8/8/8/8/8 x - - 0 1").is_err());
    assert!(Board::from_fen("9/8/8/8/8/8/8/8 w - - 0 1").is_err());
    assert!(Board::from_fen("8/8/8/8/8/8/8 w - - 0 1").is_err());
    assert!(Board::from_fen("8/8/8/8/8/8/8/8 w KX - 0 1").is_err());
    assert!(Board::from_fen("8/8/8/8/8/8/8/8 w - e4 0 1").is_err());
    assert!(Board::from_fen("8/8/8/8/8/8/8/8 w - - 70000 1").is_err());
    assert!(Board::from_fen("8/8/8/8/8/8/8/8 w - -").is_ok());
}

#[test]
fn an_info_line_gives_its_rank_score_and_move() {
    let line = parse_info_line("info depth 20 seldepth 25 multipv 2 score cp -35 nodes 100 pv e2e4 e7e5")
        .expect("an info line");
    assert_eq!(line.rank, 2);
    assert_eq!(line.score, StockfishScore::Centipawns(-35));
    assert_eq!(line.best_move, "e2e4");

    let mate = parse_info_line("info depth 9 multipv 1 score mate -3 pv h7h8").expect("a mate line");
    assert_eq!(mate.score, StockfishScore::MateIn(-3));

    assert!(parse_info_line("bestmove e2e4").is_none());
    assert!(parse_info_line("info depth 9 score cp 10 pv e2e4").is_none(), "no rank");
    assert!(parse_info_line("info multipv 1 score cp ten pv e2e4").is_none(), "no score");
    assert!(parse_info_line("info multipv 1 score cp 10").is_none(), "no move");
}

#[test]
fn the_latest_line_of_each_rank_is_kept() {
    let mut top = TopLines::new();
    assert!(!top.take("info depth 1 multipv 1 score cp 10 pv e2e4"));
    assert!(!top.take("info depth 2 multipv 1 score cp 20 pv d2d4"));
    assert!(!top.take("info depth 2 multipv 7 score cp 20 pv a2a3"));
    assert!(!top.take("info string something"));
    assert!(top.take("bestmove d2d4"));
    let lines = top.finish().expect("one line came");
    assert_eq!(lines.len(), 1);
    assert_eq!(lines[0].best_move, "d2d4");
    assert_eq!(lines[0].score, StockfishScore::Centipawns(20));

    assert!(TopLines::new().finish().is_err());
    assert!(starts_with_bestmove("bestmove e2e4 ponder e7e5"));
    assert!(!starts_with_bestmove("best"));
}

#[test]
fn a_stored_game_reads_back_move_for_move() {
    let mut board = start_position();
    board.make_move_from_squares(12, 28, None);
    board.make_move_from_squares(52, 36, None);
    let line = saved_line("my game", &board);
    assert_eq!(line, "my game\te2e4 e7e5\n");

    let (label, read) = read_saved_line(line.trim_end()).expect("the line reads back");
    assert_eq!(label, "my game");
    assert_eq!(read.hash(), board.hash());
    assert_eq!(read.moves_played(), board.moves_played());

    assert!(read_saved_line("no tab here").is_none());
    assert!(read_saved_line("bad\te2e5").is_none(), "not a legal move");
    assert!(read_saved_line("bad\tzz99").is_none(), "not a move at all");
    let (empty, fresh) = read_saved_line("empty\t").expect("no moves is a position too");
    assert_eq!(empty, "empty");
    assert_eq!(fresh.hash(), start_position().hash());
}

#[test]
fn words_and_numbers_read_as_the_standard_library_reads_them() {
    assert_eq!(split_words("  go  depth\t4 "), vec!["go".to_string(), "depth".to_string(), "4".to_string()]);
    assert!(split_words(" \t ").is_empty());
    assert_eq!(parse_unsigned("+12", u64::MAX as u128), Some(12));
    assert_eq!(parse_unsigned("", 100), None);
    assert_eq!(parse_unsigned("101", 100), None);
    assert_eq!(parse_unsigned("18446744073709551616", u64::MAX as u128), None);
    assert_eq!(parse_signed("-7", i32::MIN as i64, i32::MAX as i64), Some(-7));
    assert_eq!(parse_signed("-2147483648", i32::MIN as i64, i32::MAX as i64), Some(-2147483648));
    assert_eq!(parse_signed("2147483648", i32::MIN as i64, i32::MAX as i64), None);
    assert_eq!(decimal(0), "0");
    assert_eq!(decimal(90210), "90210");
    let words = split_words("info multipv 3 pv");
    assert_eq!(token_after(&words, "multipv"), Some("3".to_string()));
    assert_eq!(token_after(&words, "pv"), None);
    assert_eq!(parse_coordinates("e7e8q"), Some((52, 60, Some(PieceType::Queen))));
    assert_eq!(parse_coordinates("e7e8x"), None);
}

#[test]
fn the_default_settings_search_to_the_default_depth() {
    let settings = Settings::default();
    assert_eq!(settings.search_depth, DEFAULT_DEPTH);
    assert_eq!(settings.table_megabytes, TranspositionTable::DEFAULT_MEGABYTES);
    assert!(settings.use_opening_book);
    assert!(settings.time_control == TimeControl::Depth);
}

#[test]
fn the_other_names_do_what_their_counterparts_do() {
    let mut board = Board::new();
    board.create_basic_layout();
    assert_eq!(board.get_legal_moves(Color::White).len(), 20);
    assert_eq!(board.get_legal_moves(Color::Black).len(), 20);
    assert_eq!(board.get_piece(4), Some(Piece::new(PieceType::King, Color::White)));
    board.create_move(12, 28, None);
    assert_eq!(board.get_piece(28), Some(Piece::new(PieceType::Pawn, Color::White)));
    assert_eq!(board.get_winner(), Color::White);
}

// the leaves one ply away are the legal moves, and a leaf two plies away is counted once
// for every way of reaching it
#[test]
fn counting_positions_counts_the_legal_move_tree() {
    let mut board = Board::from_fen("4k3/8/8/8/8/8/8/4K2R w K - 0 1").expect("reads");
    assert_eq!(count_positions(&mut board, 1), board.legal_moves().len() as u64);
    let mut two = 0;
    for chess_move in board.legal_moves() {
        board.make_move(&chess_move);
        two += board.legal_moves().len() as u64;
        board.undo_move();
    }
    assert_eq!(count_positions(&mut board, 2), two);
    // the published count for the position known as "kiwipete" at two plies
    let mut kiwipete =
        Board::from_fen("r3k2r/p1ppqpb1/bn2pnp1/3PN3/1p2P3/2N2Q1p/PPPBBPPP/R3K2R w KQkq - 0 1").expect("reads");
    assert_eq!(count_positions(&mut kiwipete, 1), 48);
    assert_eq!(count_positions(&mut kiwipete, 2), 2039);
}

// a search leaves the board as it found it and answers with one of its legal moves
#[test]
fn a_search_answers_with_a_legal_move_and_leaves_the_board_alone() {
    let mut board = Board::from_fen("r1bqkbnr/pppp1ppp/2n5/4p3/4P3/5N2/PPPP1PPP/RNBQKB1R w KQkq - 2 3").expect("reads");
    let before = board.to_fen();
    let moves_before = board.moves_played().len();
    let result = Search::without_book(1).find_best_move(&mut board, 3);
    assert_eq!(board.to_fen(), before);
    assert_eq!(board.moves_played().len(), moves_before);
    let best = result.best_move.expect("there are moves");
    assert!(board.legal_moves().contains(&best));
    assert_eq!(result.passes.len(), 3);
    assert!(!result.aborted);
}

#[test]
fn a_stored_score_reads_as_centipawns_or_a_mate() {
    assert_eq!(parse_eval("cp35"), Some(StockfishScore::Centipawns(35)));
    assert_eq!(parse_eval("cp-120"), Some(StockfishScore::Centipawns(-120)));
    assert_eq!(parse_eval("mate3"), Some(StockfishScore::MateIn(3)));
    assert_eq!(parse_eval("mate-2"), Some(StockfishScore::MateIn(-2)));
    assert_eq!(parse_eval("cp"), None);
    assert_eq!(parse_eval("cp1x"), None);
    assert_eq!(parse_eval("pawn3"), None);
    assert_eq!(parse_eval("cp99999999999"), None);
    assert_eq!(parse_eval(""), None);
}

#[test]
fn a_library_line_reads_into_its_fields() {
    let line = "17\t8/8/8/8/8/8/8/K1k5 w - - 0 1\t0.25\te2e4\td2d4\tcp-35";
    let read = library_line(line).expect("a full line reads");
    assert_eq!(read.id, 17);
    assert_eq!(read.fen, "8/8/8/8/8/8/8/K1k5 w - - 0 1");
    assert_eq!(read.phase, "0.25");
    assert_eq!(read.moves, vec!["e2e4".to_string(), "d2d4".to_string()]);
    assert_eq!(read.eval, StockfishScore::Centipawns(-35));
}

#[test]
fn a_library_line_without_a_move_or_with_a_bad_id_is_skipped() {
    assert!(library_line("17\tfen\t0.5\tcp10").is_none());
    assert!(library_line("x\tfen\t0.5\te2e4\tcp10").is_none());
    assert!(library_line("4294967296\tfen\t0.5\te2e4\tcp10").is_none());
    assert!(library_line("3\tfen\t0.5\te2e4\tmate").is_none());
    assert_eq!(split_tabs("a\t\tb").len(), 3);
}
