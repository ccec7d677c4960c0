use chess_engine::board::board::Board;
use chess_engine::board::piece::{Color, Piece, PieceType};
use chess_engine::clock::{TimeControl, TimeSpan};
use chess_engine::evaluate::MATE;
use chess_engine::panel::{
    format_count, format_evaluation, format_score, game_is_over, game_label, piece_name, position_label, same_mode,
    targets_from, white_view,
};

#[test]
fn a_count_is_grouped_in_thousands() {
    assert_eq!(format_count(0), "0");
    assert_eq!(format_count(999), "999");
    assert_eq!(format_count(1000), "1,000");
    assert_eq!(format_count(197281), "197,281");
    assert_eq!(format_count(1_000_007), "1,000,007");
    assert_eq!(format_count(u64::MAX), "18,446,744,073,709,551,615");
}

#[test]
fn an_evaluation_reads_in_pawns() {
    assert_eq!(format_evaluation(0), "0.00");
    assert_eq!(format_evaluation(40), "+0.40");
    assert_eq!(format_evaluation(-125), "-1.25");
    assert_eq!(format_evaluation(-5), "-0.05");
    assert_eq!(format_evaluation(1234), "+12.34");
    assert_eq!(format_evaluation(i32::MIN), "-21474836.48");
}

#[test]
fn a_mate_reads_as_the_move_it_lands_on() {
    assert_eq!(format_score(MATE), "#");
    assert_eq!(format_score(MATE - 1), "#1");
    assert_eq!(format_score(MATE - 2), "#1");
    assert_eq!(format_score(MATE - 3), "#2");
    assert_eq!(format_score(-(MATE - 3)), "-#2");
    assert_eq!(format_score(-MATE), "-#");
    assert_eq!(format_score(MATE - 999), "#500");
    assert_eq!(format_score(MATE - 1000), "+990.00");
    assert_eq!(format_score(MATE + 5), "#-2");
    assert_eq!(format_score(35), "+0.35");
}

#[test]
fn the_score_is_turned_to_whites_side() {
    assert_eq!(white_view(Color::White, 30), 30);
    assert_eq!(white_view(Color::Black, 30), -30);
    assert_eq!(white_view(Color::Black, -7), 7);
}

#[test]
fn a_mode_is_the_kind_of_control() {
    let per_move = TimeControl::MoveTime(TimeSpan::from_secs(5));
    assert!(same_mode(TimeControl::Depth, TimeControl::Depth));
    assert!(same_mode(per_move, TimeControl::MoveTime(TimeSpan::from_secs(9))));
    assert!(same_mode(TimeControl::clock(3, 2), TimeControl::clock(10, 0)));
    assert!(!same_mode(per_move, TimeControl::Depth));
    assert!(!same_mode(TimeControl::clock(3, 2), per_move));
}

#[test]
fn the_piece_switches_are_named() {
    assert_eq!(piece_name(PieceType::King), "King");
    assert_eq!(piece_name(PieceType::Knight), "Knight");
    assert_eq!(piece_name(PieceType::Queen), "Queen");
}

#[test]
fn a_picked_up_piece_shows_where_it_may_go() {
    let board = Board::start_position();
    let mut knight = targets_from(&board, 6);
    knight.sort();
    assert_eq!(knight, vec![21, 23]);
    let mut pawn = targets_from(&board, 12);
    pawn.sort();
    assert_eq!(pawn, vec![20, 28]);
    assert!(targets_from(&board, 4).is_empty());
    assert!(targets_from(&board, 52).is_empty());
}

#[test]
fn the_labels_name_the_position_and_the_game() {
    let board = Board::start_position();
    assert_eq!(position_label(1, &board), "#1 White - 32p");
    let mut bare = Board::new();
    bare.add_piece(Piece::new(PieceType::King, Color::White), 4);
    bare.add_piece(Piece::new(PieceType::King, Color::Black), 60);
    assert_eq!(position_label(12, &bare), "#12 White - 2p");
    assert_eq!(game_label(3, 34), "Game #3 - 34 moves");
}

#[test]
fn a_game_is_over_on_mate_and_on_bare_kings() {
    assert!(!game_is_over(&Board::start_position()));
    let mut bare = Board::new();
    bare.add_piece(Piece::new(PieceType::King, Color::White), 4);
    bare.add_piece(Piece::new(PieceType::King, Color::Black), 60);
    assert!(game_is_over(&bare));
    // fool's mate
    let mut board = Board::start_position();
    for (from, to) in [(13u8, 21u8), (52, 36), (14, 30), (59, 31)] {
        board.make_move_from_squares(from, to, None);
    }
    assert!(game_is_over(&board));
}
