use chess_engine::board::attacks::{bishop_attacks, king_attacks, knight_attacks, pawn_attacks, queen_attacks, rook_attacks};
use chess_engine::board::board::Board;
use chess_engine::board::piece::{Color, Piece, PieceType, all_piece_types, both_colors};
use chess_engine::board::square::{bit, diagonal_steps, king_steps, knight_steps, offset, ray, straight_steps};

// the same answer the square walkers give: every square, one direction at a time
fn walked_slider(from: u8, occupied: u64, steps: &[(i8, i8)]) -> u64 {
    let mut attacks = 0;
    for &step in steps {
        for square in ray(from, step) {
            attacks |= bit(square);
            // the first piece is reached and everything behind it is not
            if occupied & bit(square) != 0 {
                break;
            }
        }
    }
    attacks
}

fn walked_steps(from: u8, steps: &[(i8, i8)]) -> u64 {
    steps
        .iter()
        .filter_map(|&step| offset(from, step))
        .map(bit)
        .fold(0, |attacks, square| attacks | square)
}

// a spread of boards to try the sliders against: empty, full, and a scattering in between
fn occupancies() -> Vec<u64> {
    let mut boards = vec![0, u64::MAX];
    let mut state = 0x1234_5678_9ABC_DEF0u64;
    for _ in 0..64 {
        state ^= state >> 12;
        state ^= state << 25;
        state ^= state >> 27;
        let random = state.wrapping_mul(0x2545_F491_4F6C_DD1D);
        boards.push(random & random.rotate_left(17));
        boards.push(random | random.rotate_left(29));
    }
    boards
}

#[test]
fn a_knight_attacks_what_the_walker_says_it_does() {
    for square in 0..64u8 {
        assert_eq!(knight_attacks(square), walked_steps(square, &knight_steps()), "from {square}");
    }
}

#[test]
fn a_king_attacks_what_the_walker_says_it_does() {
    for square in 0..64u8 {
        assert_eq!(king_attacks(square), walked_steps(square, &king_steps()), "from {square}");
    }
}

#[test]
fn a_pawn_attacks_the_two_squares_diagonally_in_front_of_it() {
    for color in both_colors() {
        let rank_step = color.pawn_direction();
        for square in 0..64u8 {
            let expected = walked_steps(square, &[(-1, rank_step), (1, rank_step)]);
            assert_eq!(pawn_attacks(square, color), expected, "from {square}");
        }
    }
}

#[test]
fn a_bishop_is_stopped_by_the_first_piece_on_each_diagonal() {
    for occupied in occupancies() {
        for square in 0..64u8 {
            assert_eq!(
                bishop_attacks(square, occupied),
                walked_slider(square, occupied, &diagonal_steps()),
                "from {square} with {occupied:#018x}"
            );
        }
    }
}

#[test]
fn a_rook_is_stopped_by_the_first_piece_on_each_file_and_rank() {
    for occupied in occupancies() {
        for square in 0..64u8 {
            assert_eq!(
                rook_attacks(square, occupied),
                walked_slider(square, occupied, &straight_steps()),
                "from {square} with {occupied:#018x}"
            );
        }
    }
}

#[test]
fn a_queen_attacks_the_bishop_squares_and_the_rook_squares() {
    for occupied in occupancies() {
        for square in 0..64u8 {
            assert_eq!(
                queen_attacks(square, occupied),
                bishop_attacks(square, occupied) | rook_attacks(square, occupied),
                "from {square} with {occupied:#018x}"
            );
        }
    }
}

#[test]
fn a_slider_reaches_the_piece_that_blocks_it_and_no_further() {
    // a rook on a1 with a piece on a4: a2, a3 and a4 are attacked, a5 and up are not
    let occupied = bit(24);
    let attacks = rook_attacks(0, occupied);
    assert!(attacks & bit(8) != 0, "a2 is not attacked");
    assert!(attacks & bit(16) != 0, "a3 is not attacked");
    assert!(attacks & bit(24) != 0, "the blocker on a4 is not attacked");
    assert!(attacks & bit(32) == 0, "a5 is attacked through the blocker");
}

#[test]
fn a_queen_on_an_empty_board_covers_the_squares_it_is_known_to() {
    assert_eq!(queen_attacks(0, 0).count_ones(), 21);
    assert_eq!(queen_attacks(27, 0).count_ones(), 27);
    assert_eq!(rook_attacks(27, 0).count_ones(), 14);
    assert_eq!(bishop_attacks(27, 0).count_ones(), 13);
}

fn start_position() -> Board {
    let mut board = Board::new();
    board.set_start_position();
    board
}

#[test]
fn the_start_position_has_twenty_legal_moves() {
    assert_eq!(start_position().legal_moves().len(), 20);
}

#[test]
fn undo_restores_the_position() {
    let mut board = start_position();
    let squares_before = board.squares();
    let hash_before = board.hash();
    for chess_move in board.legal_moves() {
        board.make_move(&chess_move);
        board.undo_move();
        assert_eq!(board.squares(), squares_before, "after {chess_move:?}");
        assert_eq!(board.turn(), Color::White, "after {chess_move:?}");
        assert_eq!(board.hash(), hash_before, "after {chess_move:?}");
    }
}

#[test]
fn the_king_square_follows_the_king() {
    let mut board = Board::new();
    board.add_piece(Piece::new(PieceType::King, Color::White), 4);
    board.add_piece(Piece::new(PieceType::Rook, Color::White), 7);
    board.add_piece(Piece::new(PieceType::King, Color::Black), 60);
    assert_eq!(board.king_square(Color::White), Some(4));
    board.make_move_from_squares(4, 6, None); // e1g1, castling short
    assert_eq!(board.king_square(Color::White), Some(6));
    assert_eq!(board.king_square(Color::Black), Some(60));
    board.undo_move();
    assert_eq!(board.king_square(Color::White), Some(4));
}

#[test]
fn a_captured_king_leaves_the_king_square_empty() {
    let mut board = Board::new();
    board.add_piece(Piece::new(PieceType::King, Color::White), 4);
    board.add_piece(Piece::new(PieceType::King, Color::Black), 12);
    board.make_move_from_squares(4, 12, None);
    assert_eq!(board.king_square(Color::White), Some(12));
    assert_eq!(board.king_square(Color::Black), None);
    board.undo_move();
    assert_eq!(board.king_square(Color::Black), Some(12));
}

#[test]
fn the_phase_follows_a_capture_and_a_promotion() {
    let mut board = Board::new();
    board.add_piece(Piece::new(PieceType::King, Color::White), 4);
    board.add_piece(Piece::new(PieceType::King, Color::Black), 60);
    board.add_piece(Piece::new(PieceType::Pawn, Color::White), 49);
    board.add_piece(Piece::new(PieceType::Rook, Color::Black), 56);
    assert_eq!(board.phase(), 2);
    board.make_move_from_squares(49, 56, Some(PieceType::Queen)); // bxa8=Q
    assert_eq!(board.phase(), 4);
    board.undo_move();
    assert_eq!(board.phase(), 2);
}

#[test]
fn transpositions_hash_the_same() {
    let mut one = start_position();
    one.make_move_from_squares(12, 28, None);
    one.make_move_from_squares(52, 36, None);
    one.make_move_from_squares(6, 21, None);
    one.make_move_from_squares(57, 42, None);

    let mut other = start_position();
    other.make_move_from_squares(6, 21, None);
    other.make_move_from_squares(57, 42, None);
    other.make_move_from_squares(12, 28, None);
    other.make_move_from_squares(52, 36, None);

    assert_eq!(one.hash(), other.hash());
}

fn board_with(pieces: &[(PieceType, Color, u8)]) -> Board {
    let mut board = Board::new();
    for &(piece_type, color, square) in pieces {
        board.add_piece(Piece::new(piece_type, color), square);
    }
    board
}

#[test]
fn a_pinned_rook_still_moves_along_the_pin() {
    let board = board_with(&[
        (PieceType::King, Color::White, 4),
        (PieceType::Rook, Color::White, 12),
        (PieceType::Rook, Color::Black, 60),
    ]);
    let mut targets: Vec<u8> = board
        .legal_moves()
        .into_iter()
        .filter(|candidate| candidate.from == 12)
        .map(|candidate| candidate.to)
        .collect();
    targets.sort();
    assert_eq!(targets, vec![20, 28, 36, 44, 52, 60]);
}

#[test]
fn a_double_check_leaves_only_king_moves() {
    let board = board_with(&[
        (PieceType::King, Color::White, 4),
        (PieceType::Rook, Color::White, 3),
        (PieceType::Rook, Color::Black, 60),
        (PieceType::Knight, Color::Black, 19),
    ]);
    let moves = board.legal_moves();
    assert!(moves.iter().all(|candidate| candidate.from == 4));
    assert_eq!(moves.len(), 2);
}

#[test]
fn the_king_cannot_step_backwards_out_of_a_check() {
    let board = board_with(&[(PieceType::King, Color::White, 28), (PieceType::Rook, Color::Black, 60)]);
    let targets: Vec<u8> = board.legal_moves().into_iter().map(|candidate| candidate.to).collect();
    assert!(!targets.contains(&20), "e3 is still on the rook's line");
    assert!(!targets.contains(&36), "e5 is still on the rook's line");
    assert_eq!(targets.len(), 6);
}

#[test]
fn castling_out_of_check_is_not_allowed() {
    let board = board_with(&[
        (PieceType::King, Color::White, 4),
        (PieceType::Rook, Color::White, 7),
        (PieceType::Rook, Color::Black, 60),
    ]);
    let moves = board.legal_moves();
    assert!(moves.iter().all(|candidate| candidate.castle.is_none()));
    assert_eq!(moves.len(), 4);
}

fn en_passant_position(with_rook: bool) -> Board {
    let mut pieces = vec![
        (PieceType::King, Color::White, 32),
        (PieceType::Pawn, Color::White, 33),
        (PieceType::Pawn, Color::White, 14),
        (PieceType::King, Color::Black, 63),
        (PieceType::Pawn, Color::Black, 50),
    ];
    if with_rook {
        pieces.push((PieceType::Rook, Color::Black, 39));
    }
    let mut board = board_with(&pieces);
    board.make_move_from_squares(14, 22, None);
    board.make_move_from_squares(50, 34, None);
    board
}

#[test]
fn en_passant_that_uncovers_the_king_is_refused() {
    let moves = en_passant_position(true).legal_moves();
    assert!(!moves.is_empty());
    assert!(moves.iter().all(|candidate| !candidate.en_passant));
}

#[test]
fn en_passant_is_allowed_when_no_rook_waits_on_the_rank() {
    let moves = en_passant_position(false).legal_moves();
    let capture = moves.iter().find(|candidate| candidate.en_passant);
    assert_eq!(capture.map(|candidate| candidate.to), Some(42));
}

#[test]
fn every_piece_indexes_a_zobrist_row_of_its_own() {
    let mut seen = Vec::new();
    for piece_type in all_piece_types() {
        for color in both_colors() {
            let index = Piece::new(piece_type, color).zobrist_index();
            assert!(index < Piece::ZOBRIST_INDEX_COUNT, "{piece_type:?} {color:?} wants row {index}");
            assert!(!seen.contains(&index), "{piece_type:?} {color:?} shares row {index}");
            seen.push(index);
        }
    }
}

#[test]
fn a_packed_piece_unpacks_again() {
    for piece_type in all_piece_types() {
        for color in both_colors() {
            let piece = Piece::new(piece_type, color);
            assert_eq!(piece.piece_type(), piece_type);
            assert_eq!(piece.color(), color);
        }
    }
}

#[test]
fn the_board_shows_the_eighth_rank_first() {
    let mut board = Board::new();
    board.set_start_position();
    let text = board.display();
    let lines: Vec<&str> = text.lines().collect();
    assert_eq!(lines.len(), 8);
    assert_eq!(lines[0], "r n b q k b n r ");
    assert_eq!(lines[1], "p p p p p p p p ");
    assert_eq!(lines[4], ". . . . . . . . ");
    assert_eq!(lines[7], "R N B Q K B N R ");
}

// kings first, then pawns, knights, bishops, rooks and queens, each piece by its square
// and its moves in the order they are walked: a pawn pushes once, then twice
#[test]
fn the_moves_come_out_pawns_first_then_knights_each_in_walking_order() {
    let mut board = Board::new();
    board.set_start_position();
    let names: Vec<String> = board.legal_moves().iter().map(|m| m.coordinates()).collect();
    assert_eq!(names.len(), 20);
    assert_eq!(&names[0..4], &["a2a3", "a2a4", "b2b3", "b2b4"]);
    assert_eq!(&names[16..20], &["b1c3", "b1a3", "g1h3", "g1f3"]);
}
