use chess_engine::board::board::Board;
use chess_engine::board::piece::{Color, Piece, PieceType};
use chess_engine::evaluate::{
    ISOLATED_PAWN, PASSED_PAWN, QUEEN_BASE, TOTAL_PHASE, bishop_pair_score, evaluate, game_phase_count, king_score,
    pawn_structure, psqt_table,
};

fn start_position() -> Board {
    let mut board = Board::new();
    board.set_start_position();
    board
}

#[test]
fn the_start_position_is_equal() {
    assert_eq!(evaluate(&start_position()), 0);
}

#[test]
fn the_pawn_psqts_are_roughly_balanced() {
    // the pawn tables: plain, after castling king side, after castling queen side, late
    let tables: [(&str, [i16; 64]); 4] = [
        ("PAWN", psqt_table(4)),
        ("PAWN_AFTER_CASTLE_KING", psqt_table(5)),
        ("PAWN_AFTER_CASTLE_QUEEN", psqt_table(6)),
        ("PAWN_LATE", psqt_table(7)),
    ];
    let mut sums = Vec::new();
    for (name, table) in tables {
        let sum: i32 = table.iter().map(|&v| v as i32).sum();
        println!("{name} (sum = {sum}):");
        sums.push(sum);
    }
    let min = *sums.iter().min().unwrap();
    let max = *sums.iter().max().unwrap();
    assert!(max - min <= 10, "pawn psqts differ too much: {sums:?}");
}

#[test]
fn every_pawn_still_has_a_neighbour_at_the_start() {
    assert_eq!(pawn_structure(&start_position()), 0);
}

#[test]
fn a_pawn_with_both_neighbouring_files_empty_is_isolated() {
    let mut board = Board::new();
    board.add_piece(Piece::new(PieceType::Pawn, Color::White), 8);
    board.add_piece(Piece::new(PieceType::Pawn, Color::White), 10);
    board.add_piece(Piece::new(PieceType::Pawn, Color::Black), 48);
    board.add_piece(Piece::new(PieceType::Pawn, Color::Black), 49);
    board.add_piece(Piece::new(PieceType::Pawn, Color::Black), 50);
    assert_eq!(pawn_structure(&board), 2 * ISOLATED_PAWN);
}

#[test]
fn a_pawn_on_the_next_file_is_neighbour_enough() {
    let mut board = Board::new();
    board.add_piece(Piece::new(PieceType::Pawn, Color::White), 12);
    board.add_piece(Piece::new(PieceType::Pawn, Color::White), 13);
    assert_eq!(pawn_structure(&board), 2 * PASSED_PAWN);
}

#[test]
fn a_passer_is_stopped_from_the_next_file_too() {
    let mut board = Board::new();
    board.add_piece(Piece::new(PieceType::Pawn, Color::White), 28);
    board.add_piece(Piece::new(PieceType::Pawn, Color::White), 29);
    board.add_piece(Piece::new(PieceType::Pawn, Color::Black), 51);
    assert_eq!(pawn_structure(&board), PASSED_PAWN - ISOLATED_PAWN);
}

#[test]
fn the_queens_carry_a_third_of_the_phase() {
    let queens = 2 * PieceType::Queen.phase_weight();
    assert_eq!(queens * 3, TOTAL_PHASE);
    assert_eq!(PieceType::Pawn.phase_weight(), 0);
    assert_eq!(PieceType::King.phase_weight(), 0);
}

#[test]
fn the_bishop_pair_grows_towards_the_endgame() {
    assert_eq!(bishop_pair_score([2, 0], TOTAL_PHASE), 10);
    assert_eq!(bishop_pair_score([2, 0], 0), 40);
    assert_eq!(bishop_pair_score([1, 0], 0), 0, "one bishop is not a pair");
    assert_eq!(bishop_pair_score([2, 2], 0), 0, "both sides have it");
}

#[test]
fn the_king_turns_around_towards_the_endgame() {
    let mut board = Board::new();
    board.add_piece(Piece::new(PieceType::King, Color::White), 28);
    board.add_piece(Piece::new(PieceType::King, Color::Black), 62);
    let kings = [board.king_square(Color::White), board.king_square(Color::Black)];
    assert!(king_score(kings, TOTAL_PHASE) < 0, "centre is bad early");
    assert!(king_score(kings, 0) > 0, "centre is good late");
}

#[test]
fn the_score_is_for_the_side_to_move() {
    let mut board = start_position();
    board.make_move_from_squares(12, 28, None);
    assert_eq!(board.turn(), Color::Black);
    let score = evaluate(&board);
    assert!(score < 0, "black to move scored {score}");
}

#[test]
fn a_symmetric_position_is_equal_again() {
    let mut board = start_position();
    board.make_move_from_squares(12, 28, None);
    board.make_move_from_squares(52, 36, None);
    assert_eq!(evaluate(&board), 0);
}

#[test]
fn material_counts() {
    let mut board = Board::new();
    board.add_piece(Piece::new(PieceType::King, Color::White), 4);
    board.add_piece(Piece::new(PieceType::King, Color::Black), 60);
    board.add_piece(Piece::new(PieceType::Queen, Color::White), 3);
    let score = evaluate(&board);
    assert!(
        (QUEEN_BASE as i32 - 50..=QUEEN_BASE as i32 + 50).contains(&score),
        "a lone queen scored {score}"
    );
}

#[test]
fn mirrored_positions_score_the_same() {
    let mut white_side = Board::new();
    white_side.add_piece(Piece::new(PieceType::King, Color::White), 4);
    white_side.add_piece(Piece::new(PieceType::King, Color::Black), 60);
    white_side.add_piece(Piece::new(PieceType::Knight, Color::White), 18);
    white_side.add_piece(Piece::new(PieceType::Pawn, Color::White), 28);

    let mut black_side = Board::new();
    black_side.add_piece(Piece::new(PieceType::King, Color::White), 4);
    black_side.add_piece(Piece::new(PieceType::King, Color::Black), 60);
    black_side.add_piece(Piece::new(PieceType::Knight, Color::Black), 42);
    black_side.add_piece(Piece::new(PieceType::Pawn, Color::Black), 36);

    assert_eq!(evaluate(&white_side), -evaluate(&black_side));
}

#[test]
fn two_knights_against_a_bare_king_is_a_draw() {
    let mut board = Board::new();
    board.add_piece(Piece::new(PieceType::King, Color::White), 4);
    board.add_piece(Piece::new(PieceType::King, Color::Black), 60);
    board.add_piece(Piece::new(PieceType::Knight, Color::White), 1);
    board.add_piece(Piece::new(PieceType::Knight, Color::White), 6);
    assert_eq!(evaluate(&board), 0);
}

#[test]
fn a_knight_up_against_a_knight_still_counts() {
    let mut board = Board::new();
    board.add_piece(Piece::new(PieceType::King, Color::White), 4);
    board.add_piece(Piece::new(PieceType::King, Color::Black), 60);
    board.add_piece(Piece::new(PieceType::Knight, Color::White), 1);
    board.add_piece(Piece::new(PieceType::Knight, Color::White), 6);
    board.add_piece(Piece::new(PieceType::Knight, Color::Black), 57);
    let score = evaluate(&board);
    assert!(score > 200, "a knight up scored {score}");
}

#[test]
fn a_draw_by_material_is_worth_nothing() {
    let mut board = Board::new();
    board.add_piece(Piece::new(PieceType::King, Color::White), 4);
    board.add_piece(Piece::new(PieceType::King, Color::Black), 60);
    board.add_piece(Piece::new(PieceType::Bishop, Color::White), 2);
    assert_eq!(evaluate(&board), 0);
}

// the phase as a count out of the full 24: everything on the board at the start, nothing
// with bare kings or with only pawns left
#[test]
fn the_phase_count_runs_from_a_full_board_down_to_bare_kings() {
    assert_eq!(game_phase_count(&start_position()), TOTAL_PHASE);

    let mut bare = Board::new();
    bare.add_piece(Piece::new(PieceType::King, Color::White), 4);
    bare.add_piece(Piece::new(PieceType::King, Color::Black), 60);
    assert_eq!(game_phase_count(&bare), 0);

    let mut pawns = bare;
    for file in 0..8 {
        pawns.add_piece(Piece::new(PieceType::Pawn, Color::White), 8 + file);
        pawns.add_piece(Piece::new(PieceType::Pawn, Color::Black), 48 + file);
    }
    assert_eq!(game_phase_count(&pawns), 0);
}

// the phase as a fraction of the full count, as the GUI shows it
fn phase_fraction(board: &Board) -> f32 {
    game_phase_count(board) as f32 / TOTAL_PHASE as f32
}

#[test]
fn the_phase_runs_from_a_full_board_down_to_bare_kings() {
    assert_eq!(phase_fraction(&start_position()), 1.0);

    let mut bare = Board::new();
    bare.add_piece(Piece::new(PieceType::King, Color::White), 4);
    bare.add_piece(Piece::new(PieceType::King, Color::Black), 60);
    assert_eq!(phase_fraction(&bare), 0.0);
}

#[test]
fn a_pawn_endgame_is_all_the_way_into_the_endgame() {
    let mut board = Board::new();
    board.add_piece(Piece::new(PieceType::King, Color::White), 4);
    board.add_piece(Piece::new(PieceType::King, Color::Black), 60);
    for file in 0..8 {
        board.add_piece(Piece::new(PieceType::Pawn, Color::White), 8 + file);
        board.add_piece(Piece::new(PieceType::Pawn, Color::Black), 48 + file);
    }
    assert_eq!(phase_fraction(&board), 0.0);
}
