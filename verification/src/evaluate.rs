// Scoring a position without searching it: material and piece-square tables, pawn
// structure, the king's square and the bishop pair, blended between middlegame and
// endgame by how much material is left. Positive means the side to move stands better.
use vstd::prelude::*;
use crate::board::board::Board;
use crate::board::piece::{Color, Piece, PieceType, group_piece, opponent_of};
use crate::board::square::{abs_spec, file_of, file_spec, rank_of, rank_spec};
use crate::board::status::{insufficient_material_spec, phase_sum, piece_count};

verus! {

broadcast use group_piece;

pub const KING_BASE: i16 = 0;
pub const QUEEN_BASE: i16 = 900;
pub const ROOK_BASE: i16 = 500;
pub const KNIGHT_BASE: i16 = 300;
pub const BISHOP_BASE: i16 = 300;
pub const PAWN_BASE: i16 = 100;

pub const MATE: i32 = 100_000;
/// A score at least this far up is a mate rather than a count of material.
pub const MATE_BOUND: i32 = 99_000;

pub const ISOLATED_PAWN: i32 = -40;
pub const PASSED_PAWN: i32 = 50;

/// The bishop pair, (middlegame, endgame).
pub const BISHOP_PAIR_MIDDLEGAME: i16 = 10;
pub const BISHOP_PAIR_ENDGAME: i16 = 40;

/// Both sides' knights, bishops, rooks and queens added up by phase weight.
pub const TOTAL_PHASE: i32 = 24;

/// The piece-square tables, written from black's side (a8 first): 0 knight, 1 bishop,
/// 2 rook, 3 queen, 4 pawn, 5 pawn once castled king side, 6 pawn once castled queen
/// side, 7 pawn late in the game, 8 king in the middlegame, 9 king in the endgame.
pub open spec fn psqt(id: int) -> Seq<i16> {
    if id == 0 {
        seq![
            -50i16, -40i16, -30i16, -30i16, -30i16, -30i16, -40i16, -50i16,
            -40i16, -20i16, 0i16, 0i16, 0i16, 0i16, -20i16, -40i16,
            -30i16, 0i16, 10i16, 15i16, 15i16, 10i16, 0i16, -30i16,
            -30i16, 5i16, 15i16, 20i16, 20i16, 15i16, 5i16, -30i16,
            -30i16, 0i16, 15i16, 20i16, 20i16, 15i16, 0i16, -30i16,
            -30i16, 5i16, 10i16, 15i16, 15i16, 10i16, 5i16, -30i16,
            -40i16, -20i16, 0i16, 5i16, 5i16, 0i16, -20i16, -40i16,
            -50i16, -40i16, -30i16, -30i16, -30i16, -30i16, -40i16, -50i16,
        ]
    } else if id == 1 {
        seq![
            -20i16, -10i16, -10i16, -10i16, -10i16, -10i16, -10i16, -20i16,
            -10i16, 0i16, 0i16, 0i16, 0i16, 0i16, 0i16, -10i16,
            -10i16, 0i16, 5i16, 10i16, 10i16, 5i16, 0i16, -10i16,
            -10i16, 5i16, 5i16, 10i16, 10i16, 5i16, 5i16, -10i16,
            -10i16, 0i16, 10i16, 10i16, 10i16, 10i16, 0i16, -10i16,
            -10i16, 10i16, 10i16, 10i16, 10i16, 10i16, 10i16, -10i16,
            -10i16, 5i16, 0i16, 0i16, 0i16, 0i16, 5i16, -10i16,
            -20i16, -10i16, -10i16, -10i16, -10i16, -10i16, -10i16, -20i16,
        ]
    } else if id == 2 {
        seq![
            0i16, 0i16, 0i16, 0i16, 0i16, 0i16, 0i16, 0i16,
            5i16, 10i16, 10i16, 10i16, 10i16, 10i16, 10i16, 5i16,
            -5i16, 0i16, 0i16, 0i16, 0i16, 0i16, 0i16, -5i16,
            -5i16, 0i16, 0i16, 0i16, 0i16, 0i16, 0i16, -5i16,
            -5i16, 0i16, 0i16, 0i16, 0i16, 0i16, 0i16, -5i16,
            -5i16, 0i16, 0i16, 0i16, 0i16, 0i16, 0i16, -5i16,
            -5i16, 0i16, 0i16, 0i16, 0i16, 0i16, 0i16, -5i16,
            0i16, 0i16, 0i16, 5i16, 5i16, 0i16, 0i16, 0i16,
        ]
    } else if id == 3 {
        seq![
            -20i16, -10i16, -10i16, -5i16, -5i16, -10i16, -10i16, -20i16,
            -10i16, 0i16, 0i16, 0i16, 0i16, 0i16, 0i16, -10i16,
            -10i16, 0i16, 5i16, 5i16, 5i16, 5i16, 0i16, -10i16,
            -5i16, 0i16, 5i16, 5i16, 5i16, 5i16, 0i16, -5i16,
            0i16, 0i16, 5i16, 5i16, 5i16, 5i16, 0i16, -5i16,
            -10i16, 5i16, 5i16, 5i16, 5i16, 5i16, 0i16, -10i16,
            -10i16, 0i16, 5i16, 0i16, 0i16, 0i16, 0i16, -10i16,
            -20i16, -10i16, -10i16, -5i16, -5i16, -10i16, -10i16, -20i16,
        ]
    } else if id == 4 {
        seq![
            0i16, 0i16, 0i16, 0i16, 0i16, 0i16, 0i16, 0i16,
            50i16, 50i16, 50i16, 50i16, 50i16, 50i16, 50i16, 50i16,
            10i16, 10i16, 20i16, 30i16, 30i16, 20i16, 10i16, 10i16,
            5i16, 5i16, 10i16, 25i16, 25i16, 10i16, 5i16, 5i16,
            0i16, 0i16, 0i16, 20i16, 20i16, 0i16, 0i16, 0i16,
            5i16, -5i16, -10i16, 0i16, 0i16, -10i16, -5i16, 5i16,
            5i16, 10i16, 10i16, -20i16, -20i16, 10i16, 10i16, 5i16,
            0i16, 0i16, 0i16, 0i16, 0i16, 0i16, 0i16, 0i16,
        ]
    } else if id == 5 {
        seq![
            0i16, 0i16, 0i16, 0i16, 0i16, 0i16, 0i16, 0i16,
            50i16, 50i16, 50i16, 50i16, 50i16, 50i16, 50i16, 50i16,
            10i16, 10i16, 20i16, 30i16, 30i16, 20i16, 10i16, 10i16,
            5i16, 5i16, 10i16, 25i16, 25i16, 5i16, 0i16, 0i16,
            5i16, 5i16, 5i16, 20i16, 20i16, -5i16, -5i16, -5i16,
            5i16, 5i16, 5i16, 0i16, 0i16, -10i16, -5i16, 5i16,
            0i16, 0i16, 0i16, -20i16, -20i16, 15i16, 15i16, 10i16,
            0i16, 0i16, 0i16, 0i16, 0i16, 0i16, 0i16, 0i16,
        ]
    } else if id == 6 {
        seq![
            0i16, 0i16, 0i16, 0i16, 0i16, 0i16, 0i16, 0i16,
            50i16, 50i16, 50i16, 50i16, 50i16, 50i16, 50i16, 50i16,
            10i16, 10i16, 20i16, 30i16, 30i16, 20i16, 10i16, 10i16,
            0i16, 0i16, 5i16, 25i16, 25i16, 10i16, 5i16, 5i16,
            -5i16, -5i16, -5i16, 20i16, 20i16, 5i16, 5i16, 5i16,
            5i16, -5i16, -10i16, 0i16, 0i16, 5i16, 5i16, 5i16,
            10i16, 15i16, 15i16, -20i16, -20i16, 0i16, 0i16, 0i16,
            0i16, 0i16, 0i16, 0i16, 0i16, 0i16, 0i16, 0i16,
        ]
    } else if id == 7 {
        seq![
            0i16, 0i16, 0i16, 0i16, 0i16, 0i16, 0i16, 0i16,
            50i16, 50i16, 50i16, 50i16, 50i16, 50i16, 50i16, 50i16,
            20i16, 30i16, 30i16, 30i16, 30i16, 30i16, 30i16, 20i16,
            10i16, 10i16, 10i16, 25i16, 25i16, 10i16, 10i16, 10i16,
            5i16, 5i16, 5i16, 20i16, 20i16, 5i16, 5i16, 5i16,
            -5i16, -5i16, -10i16, 0i16, 0i16, -10i16, -5i16, -5i16,
            -10i16, -10i16, -10i16, -20i16, -20i16, -10i16, -10i16, -10i16,
            0i16, 0i16, 0i16, 0i16, 0i16, 0i16, 0i16, 0i16,
        ]
    } else if id == 8 {
        seq![
            -30i16, -40i16, -40i16, -50i16, -50i16, -40i16, -40i16, -30i16,
            -30i16, -40i16, -40i16, -50i16, -50i16, -40i16, -40i16, -30i16,
            -30i16, -40i16, -40i16, -50i16, -50i16, -40i16, -40i16, -30i16,
            -30i16, -40i16, -40i16, -50i16, -50i16, -40i16, -40i16, -30i16,
            -20i16, -30i16, -30i16, -40i16, -40i16, -30i16, -30i16, -20i16,
            -10i16, -20i16, -20i16, -20i16, -20i16, -20i16, -20i16, -10i16,
            20i16, 20i16, 0i16, 0i16, 0i16, 0i16, 20i16, 20i16,
            20i16, 30i16, 10i16, 0i16, 0i16, 10i16, 30i16, 20i16,
        ]
    } else {
        seq![
            -50i16, -40i16, -30i16, -20i16, -20i16, -30i16, -40i16, -50i16,
            -30i16, -20i16, -10i16, 0i16, 0i16, -10i16, -20i16, -30i16,
            -30i16, -10i16, 20i16, 30i16, 30i16, 20i16, -10i16, -30i16,
            -30i16, -10i16, 30i16, 40i16, 40i16, 30i16, -10i16, -30i16,
            -30i16, -10i16, 30i16, 40i16, 40i16, 30i16, -10i16, -30i16,
            -30i16, -10i16, 20i16, 30i16, 30i16, 20i16, -10i16, -30i16,
            -30i16, -30i16, 0i16, 0i16, 0i16, 0i16, -30i16, -30i16,
            -50i16, -30i16, -30i16, -30i16, -30i16, -30i16, -30i16, -50i16,
        ]
    }
}

/// One entry of a piece-square table.
pub fn psqt_at(id: u8, index: usize) -> (r: i16)
    requires
        id < 10,
        index < 64,
    ensures
        r == psqt(id as int)[index as int],
{
    let table: [i16; 64] = psqt_table(id);
    table[index]
}

/// A whole piece-square table.
pub fn psqt_table(id: u8) -> (r: [i16; 64])
    requires
        id < 10,
    ensures
        r@ == psqt(id as int),
{
    if id == 0 {
        let table: [i16; 64] = [
            -50, -40, -30, -30, -30, -30, -40, -50,
            -40, -20, 0, 0, 0, 0, -20, -40,
            -30, 0, 10, 15, 15, 10, 0, -30,
            -30, 5, 15, 20, 20, 15, 5, -30,
            -30, 0, 15, 20, 20, 15, 0, -30,
            -30, 5, 10, 15, 15, 10, 5, -30,
            -40, -20, 0, 5, 5, 0, -20, -40,
            -50, -40, -30, -30, -30, -30, -40, -50,
        ];
        assert(table@ =~= psqt(0));
        table
    } else if id == 1 {
        let table: [i16; 64] = [
            -20, -10, -10, -10, -10, -10, -10, -20,
            -10, 0, 0, 0, 0, 0, 0, -10,
            -10, 0, 5, 10, 10, 5, 0, -10,
            -10, 5, 5, 10, 10, 5, 5, -10,
            -10, 0, 10, 10, 10, 10, 0, -10,
            -10, 10, 10, 10, 10, 10, 10, -10,
            -10, 5, 0, 0, 0, 0, 5, -10,
            -20, -10, -10, -10, -10, -10, -10, -20,
        ];
        assert(table@ =~= psqt(1));
        table
    } else if id == 2 {
        let table: [i16; 64] = [
            0, 0, 0, 0, 0, 0, 0, 0,
            5, 10, 10, 10, 10, 10, 10, 5,
            -5, 0, 0, 0, 0, 0, 0, -5,
            -5, 0, 0, 0, 0, 0, 0, -5,
            -5, 0, 0, 0, 0, 0, 0, -5,
            -5, 0, 0, 0, 0, 0, 0, -5,
            -5, 0, 0, 0, 0, 0, 0, -5,
            0, 0, 0, 5, 5, 0, 0, 0,
        ];
        assert(table@ =~= psqt(2));
        table
    } else if id == 3 {
        let table: [i16; 64] = [
            -20, -10, -10, -5, -5, -10, -10, -20,
            -10, 0, 0, 0, 0, 0, 0, -10,
            -10, 0, 5, 5, 5, 5, 0, -10,
            -5, 0, 5, 5, 5, 5, 0, -5,
            0, 0, 5, 5, 5, 5, 0, -5,
            -10, 5, 5, 5, 5, 5, 0, -10,
            -10, 0, 5, 0, 0, 0, 0, -10,
            -20, -10, -10, -5, -5, -10, -10, -20,
        ];
        assert(table@ =~= psqt(3));
        table
    } else if id == 4 {
        let table: [i16; 64] = [
            0, 0, 0, 0, 0, 0, 0, 0,
            50, 50, 50, 50, 50, 50, 50, 50,
            10, 10, 20, 30, 30, 20, 10, 10,
            5, 5, 10, 25, 25, 10, 5, 5,
            0, 0, 0, 20, 20, 0, 0, 0,
            5, -5, -10, 0, 0, -10, -5, 5,
            5, 10, 10, -20, -20, 10, 10, 5,
            0, 0, 0, 0, 0, 0, 0, 0,
        ];
        assert(table@ =~= psqt(4));
        table
    } else if id == 5 {
        let table: [i16; 64] = [
            0, 0, 0, 0, 0, 0, 0, 0,
            50, 50, 50, 50, 50, 50, 50, 50,
            10, 10, 20, 30, 30, 20, 10, 10,
            5, 5, 10, 25, 25, 5, 0, 0,
            5, 5, 5, 20, 20, -5, -5, -5,
            5, 5, 5, 0, 0, -10, -5, 5,
            0, 0, 0, -20, -20, 15, 15, 10,
            0, 0, 0, 0, 0, 0, 0, 0,
        ];
        assert(table@ =~= psqt(5));
        table
    } else if id == 6 {
        let table: [i16; 64] = [
            0, 0, 0, 0, 0, 0, 0, 0,
            50, 50, 50, 50, 50, 50, 50, 50,
            10, 10, 20, 30, 30, 20, 10, 10,
            0, 0, 5, 25, 25, 10, 5, 5,
            -5, -5, -5, 20, 20, 5, 5, 5,
            5, -5, -10, 0, 0, 5, 5, 5,
            10, 15, 15, -20, -20, 0, 0, 0,
            0, 0, 0, 0, 0, 0, 0, 0,
        ];
        assert(table@ =~= psqt(6));
        table
    } else if id == 7 {
        let table: [i16; 64] = [
            0, 0, 0, 0, 0, 0, 0, 0,
            50, 50, 50, 50, 50, 50, 50, 50,
            20, 30, 30, 30, 30, 30, 30, 20,
            10, 10, 10, 25, 25, 10, 10, 10,
            5, 5, 5, 20, 20, 5, 5, 5,
            -5, -5, -10, 0, 0, -10, -5, -5,
            -10, -10, -10, -20, -20, -10, -10, -10,
            0, 0, 0, 0, 0, 0, 0, 0,
        ];
        assert(table@ =~= psqt(7));
        table
    } else if id == 8 {
        let table: [i16; 64] = [
            -30, -40, -40, -50, -50, -40, -40, -30,
            -30, -40, -40, -50, -50, -40, -40, -30,
            -30, -40, -40, -50, -50, -40, -40, -30,
            -30, -40, -40, -50, -50, -40, -40, -30,
            -20, -30, -30, -40, -40, -30, -30, -20,
            -10, -20, -20, -20, -20, -20, -20, -10,
            20, 20, 0, 0, 0, 0, 20, 20,
            20, 30, 10, 0, 0, 10, 30, 20,
        ];
        assert(table@ =~= psqt(8));
        table
    } else {
        let table: [i16; 64] = [
            -50, -40, -30, -20, -20, -30, -40, -50,
            -30, -20, -10, 0, 0, -10, -20, -30,
            -30, -10, 20, 30, 30, 20, -10, -30,
            -30, -10, 30, 40, 40, 30, -10, -30,
            -30, -10, 30, 40, 40, 30, -10, -30,
            -30, -10, 20, 30, 30, 20, -10, -30,
            -30, -30, 0, 0, 0, 0, -30, -30,
            -50, -30, -30, -30, -30, -30, -30, -50,
        ];
        assert(table@ =~= psqt(9));
        table
    }
}


/// What a piece of this type is worth.
pub open spec fn base_value(piece_type: PieceType) -> int {
    match piece_type {
        PieceType::King => 0,
        PieceType::Pawn => 100,
        PieceType::Knight => 300,
        PieceType::Bishop => 300,
        PieceType::Rook => 500,
        PieceType::Queen => 900,
    }
}

/// Each piece is worth its named base value, and the values rank the pieces as chess does:
/// a pawn below a knight, a knight as much as a bishop, a bishop below a rook, a rook
/// below a queen, and a queen below two rooks.
pub proof fn law_piece_values()
    ensures
        base_value(PieceType::Pawn) == PAWN_BASE as int,
        base_value(PieceType::Knight) == KNIGHT_BASE as int,
        base_value(PieceType::Bishop) == BISHOP_BASE as int,
        base_value(PieceType::Rook) == ROOK_BASE as int,
        base_value(PieceType::Queen) == QUEEN_BASE as int,
        base_value(PieceType::King) == KING_BASE as int,
        base_value(PieceType::Pawn) < base_value(PieceType::Knight),
        base_value(PieceType::Knight) == base_value(PieceType::Bishop),
        base_value(PieceType::Bishop) < base_value(PieceType::Rook),
        base_value(PieceType::Rook) < base_value(PieceType::Queen),
        base_value(PieceType::Queen) < 2 * base_value(PieceType::Rook),
{
}

pub fn piece_value(piece_type: PieceType) -> (r: i16)
    ensures
        r == base_value(piece_type),
{
    match piece_type {
        PieceType::King => KING_BASE,
        PieceType::Pawn => PAWN_BASE,
        PieceType::Knight => KNIGHT_BASE,
        PieceType::Bishop => BISHOP_BASE,
        PieceType::Rook => ROOK_BASE,
        PieceType::Queen => QUEEN_BASE,
    }
}

/// The tables are written from black's side, so white's squares are mirrored by rank.
pub open spec fn table_index(square: int, color: Color) -> int {
    match color {
        Color::White => (7 - rank_spec(square)) * 8 + file_spec(square),
        Color::Black => square,
    }
}

pub fn table_index_of(square: u8, color: Color) -> (r: usize)
    requires
        square < 64,
    ensures
        r == table_index(square as int, color),
        r < 64,
{
    match color {
        Color::White => ((7 - rank_of(square)) * 8 + file_of(square)) as usize,
        Color::Black => square as usize,
    }
}

/// White counts up, black counts down.
pub open spec fn signed(value: int, color: Color) -> int {
    match color {
        Color::White => value,
        Color::Black => -value,
    }
}

pub fn signed_of(value: i32, color: Color) -> (r: i32)
    requires
        value > i32::MIN,
    ensures
        r == signed(value as int, color),
{
    match color {
        Color::White => value,
        Color::Black => -value,
    }
}

/// Integer division as the machine does it, rounding towards zero.
pub open spec fn div_toward_zero(a: int, b: int) -> int {
    if a >= 0 {
        a / b
    } else {
        -((-a) / b)
    }
}

/// A (middlegame, endgame) pair blended by the phase: all middlegame at 24, all endgame at 0.
pub open spec fn interpolate(middlegame: int, endgame: int, phase: int) -> int {
    div_toward_zero(middlegame * phase + endgame * (24 - phase), 24)
}

pub fn interpolate_of(middlegame: i16, endgame: i16, phase: i32) -> (r: i32)
    requires
        0 <= phase <= 24,
    ensures
        r == interpolate(middlegame as int, endgame as int, phase as int),
        -32768 <= r <= 32767,
{
    let a = middlegame as i32;
    let b = endgame as i32;
    assert(-32768 * 24 <= a * phase <= 32767 * 24) by (nonlinear_arith)
        requires
            -32768 <= a <= 32767,
            0 <= phase <= 24,
    ;
    assert(-32768 * 24 <= b * (24 - phase) <= 32767 * 24) by (nonlinear_arith)
        requires
            -32768 <= b <= 32767,
            0 <= phase <= 24,
    ;
    let total = a * phase + b * (24 - phase);
    assert(-32768 * 24 <= total <= 32767 * 24) by (nonlinear_arith)
        requires
            total == a * phase + b * (24 - phase),
            -32768 <= a <= 32767,
            -32768 <= b <= 32767,
            0 <= phase <= 24,
    ;
    if total >= 0 {
        total / 24
    } else {
        -((-total) / 24)
    }
}

/// Which table a piece type reads its square value from, for the four that have one.
pub open spec fn table_of(piece_type: PieceType) -> int {
    match piece_type {
        PieceType::Knight => 0,
        PieceType::Bishop => 1,
        PieceType::Rook => 2,
        _ => 3,
    }
}

/// What a knight, bishop, rook or queen on a square contributes: its value and its
/// square, signed by its color. Kings and pawns are scored elsewhere.
pub open spec fn piece_term(occupant: Option<Piece>, square: int) -> int {
    match occupant {
        Some(p) => if p.kind() == PieceType::King || p.kind() == PieceType::Pawn {
            0
        } else {
            signed(
                psqt(table_of(p.kind()))[table_index(square, p.side())] + base_value(p.kind()),
                p.side(),
            )
        },
        None => 0,
    }
}

/// The pawn table of a side, picked by where its king stands: a king on either outer
/// three files has castled to that wing.
pub open spec fn pawn_table_of(king: Option<int>) -> int {
    match king {
        Some(square) => if file_spec(square) <= 2 {
            6
        } else if file_spec(square) >= 5 {
            5
        } else {
            4
        },
        None => 4,
    }
}

/// What a pawn on a square contributes: its value and its square, blended between the
/// table its king's wing picks and the late table.
pub open spec fn pawn_term(occupant: Option<Piece>, square: int, kings: (Option<int>, Option<int>), phase: int) -> int {
    match occupant {
        Some(p) => if p.kind() == PieceType::Pawn {
            let king = if p.side() == Color::White { kings.0 } else { kings.1 };
            let index = table_index(square, p.side());
            signed(
                100 + interpolate(psqt(pawn_table_of(king))[index] as int, psqt(7)[index] as int, phase),
                p.side(),
            )
        } else {
            0
        },
        None => 0,
    }
}

/// No pawn of the same color stands on either neighbouring file.
pub open spec fn isolated(sq: Seq<Option<Piece>>, square: int, color: Color) -> bool {
    forall|j: int|
        0 <= j < 64 && abs_spec(file_spec(j) - file_spec(square)) == 1 ==> #[trigger] sq[j] != Some(
            Piece::of(PieceType::Pawn, color),
        )
}

/// The squares still ahead of a pawn, seen from its own side.
pub open spec fn ahead(color: Color, square: int, j: int) -> bool {
    match color {
        Color::White => rank_spec(j) > rank_spec(square),
        Color::Black => rank_spec(j) < rank_spec(square),
    }
}

/// No enemy pawn stands ahead of it on its own file or a neighbouring one.
pub open spec fn passed(sq: Seq<Option<Piece>>, square: int, color: Color) -> bool {
    forall|j: int|
        0 <= j < 64 && abs_spec(file_spec(j) - file_spec(square)) <= 1 && ahead(color, square, j)
            ==> #[trigger] sq[j] != Some(Piece::of(PieceType::Pawn, opponent_of(color)))
}

/// What a pawn on a square contributes to the pawn structure.
pub open spec fn structure_term(sq: Seq<Option<Piece>>, square: int) -> int {
    match sq[square] {
        Some(p) => if p.kind() == PieceType::Pawn {
            signed(
                (if isolated(sq, square, p.side()) { -40int } else { 0int }) + (if passed(sq, square, p.side()) {
                    50int
                } else {
                    0int
                }),
                p.side(),
            )
        } else {
            0
        },
        None => 0,
    }
}

/// What the knights, bishops, rooks and queens on the first `n` squares are worth.
pub open spec fn psqt_sum(sq: Seq<Option<Piece>>, n: int) -> int
    decreases n,
{
    if n <= 0 {
        0
    } else {
        psqt_sum(sq, n - 1) + piece_term(sq[n - 1], n - 1)
    }
}

/// What the pawns on the first `n` squares are worth.
pub open spec fn pawn_sum(sq: Seq<Option<Piece>>, kings: (Option<int>, Option<int>), phase: int, n: int) -> int
    decreases n,
{
    if n <= 0 {
        0
    } else {
        pawn_sum(sq, kings, phase, n - 1) + pawn_term(sq[n - 1], n - 1, kings, phase)
    }
}

/// The pawn structure terms of the pawns on the first `n` squares.
pub open spec fn structure_sum(sq: Seq<Option<Piece>>, n: int) -> int
    decreases n,
{
    if n <= 0 {
        0
    } else {
        structure_sum(sq, n - 1) + structure_term(sq, n - 1)
    }
}

/// What the knights, bishops, rooks and queens are worth, with their squares.
pub open spec fn psqt_score_spec(sq: Seq<Option<Piece>>) -> int {
    psqt_sum(sq, 64)
}

pub open spec fn pawn_score_spec(sq: Seq<Option<Piece>>, kings: (Option<int>, Option<int>), phase: int) -> int {
    pawn_sum(sq, kings, phase, 64)
}

/// Passed pawns rewarded, isolated ones punished.
pub open spec fn pawn_structure_spec(sq: Seq<Option<Piece>>) -> int {
    structure_sum(sq, 64)
}

/// The kings, each from the middlegame table turning into the endgame one.
pub open spec fn king_score_spec(kings: (Option<int>, Option<int>), phase: int) -> int {
    let white = match kings.0 {
        Some(s) => interpolate(psqt(8)[table_index(s, Color::White)] as int, psqt(9)[table_index(s, Color::White)] as int, phase),
        None => 0,
    };
    let black = match kings.1 {
        Some(s) => -interpolate(psqt(8)[table_index(s, Color::Black)] as int, psqt(9)[table_index(s, Color::Black)] as int, phase),
        None => 0,
    };
    white + black
}

/// Two bishops or more are worth a bonus that grows towards the endgame.
pub open spec fn bishop_pair_spec(bishops: (int, int), phase: int) -> int {
    let bonus = interpolate(10, 40, phase);
    (if bishops.0 >= 2 { bonus } else { 0 }) - (if bishops.1 >= 2 { bonus } else { 0 })
}

/// The lowest square holding `piece` from `i` on.
pub open spec fn lowest_from(sq: Seq<Option<Piece>>, piece: Piece, i: int) -> Option<int>
    decreases 64 - i,
{
    if i >= 64 || i < 0 {
        None
    } else if sq[i] == Some(piece) {
        Some(i)
    } else {
        lowest_from(sq, piece, i + 1)
    }
}

/// Where each king stands, white's first.
pub open spec fn kings_of(sq: Seq<Option<Piece>>) -> (Option<int>, Option<int>) {
    (
        lowest_from(sq, Piece::of(PieceType::King, Color::White), 0),
        lowest_from(sq, Piece::of(PieceType::King, Color::Black), 0),
    )
}

/// The phase, clamped into 0..=24.
pub open spec fn clamped_phase(sq: Seq<Option<Piece>>) -> int {
    let phase = phase_sum(sq, 64);
    if phase < 0 {
        0
    } else if phase > 24 {
        24
    } else {
        phase
    }
}

/// The whole evaluation of a position, for the side to move.
pub open spec fn evaluate_spec(sq: Seq<Option<Piece>>, turn: Color) -> int {
    if insufficient_material_spec(sq) {
        0
    } else {
        let kings = kings_of(sq);
        let phase = clamped_phase(sq);
        let bishops = (piece_count(sq, PieceType::Bishop, Color::White), piece_count(sq, PieceType::Bishop, Color::Black));
        signed(
            psqt_score_spec(sq) + pawn_score_spec(sq, kings, phase) + pawn_structure_spec(sq) + king_score_spec(kings, phase)
                + bishop_pair_spec(bishops, phase),
            turn,
        )
    }
}

proof fn lemma_psqt_sum_bound(sq: Seq<Option<Piece>>, n: int)
    requires
        0 <= n <= 64,
        sq.len() == 64,
    ensures
        -34000 * n <= psqt_sum(sq, n) <= 34000 * n,
    decreases n,
{
    if n > 0 {
        lemma_psqt_sum_bound(sq, n - 1);
    }
}

proof fn lemma_pawn_sum_bound(sq: Seq<Option<Piece>>, kings: (Option<int>, Option<int>), phase: int, n: int)
    requires
        0 <= n <= 64,
        0 <= phase <= 24,
        sq.len() == 64,
    ensures
        -34000 * n <= pawn_sum(sq, kings, phase, n) <= 34000 * n,
    decreases n,
{
    if n > 0 {
        lemma_pawn_sum_bound(sq, kings, phase, n - 1);
        let o = sq[n - 1];
        if o is Some {
            let p = o.unwrap();
            if p.kind() == PieceType::Pawn {
                let king = if p.side() == Color::White { kings.0 } else { kings.1 };
                let index = table_index(n - 1, p.side());
                lemma_interpolate_bound(psqt(pawn_table_of(king))[index] as int, psqt(7)[index] as int, phase);
            }
        }
    }
}

proof fn lemma_structure_sum_bound(sq: Seq<Option<Piece>>, n: int)
    requires
        0 <= n <= 64,
    ensures
        -100 * n <= structure_sum(sq, n) <= 100 * n,
    decreases n,
{
    if n > 0 {
        lemma_structure_sum_bound(sq, n - 1);
    }
}

proof fn lemma_interpolate_bound(a: int, b: int, phase: int)
    requires
        -32768 <= a <= 32767,
        -32768 <= b <= 32767,
        0 <= phase <= 24,
    ensures
        -32768 <= interpolate(a, b, phase) <= 32767,
{
    assert(-32768 * 24 <= a * phase + b * (24 - phase) <= 32767 * 24) by (nonlinear_arith)
        requires
            -32768 <= a <= 32767,
            -32768 <= b <= 32767,
            0 <= phase <= 24,
    ;
}

/// What a knight, bishop, rook or queen standing on a square contributes.
fn piece_term_of(occupant: Option<Piece>, square: u8) -> (r: i32)
    requires
        square < 64,
        occupant matches Some(p) ==> p.valid(),
    ensures
        r == piece_term(occupant, square as int),
        -34000 <= r <= 34000,
{
    match occupant {
        Some(piece) => {
            let kind = piece.piece_type();
            let table: u8 = match kind {
                PieceType::King | PieceType::Pawn => return 0,
                PieceType::Knight => 0,
                PieceType::Bishop => 1,
                PieceType::Rook => 2,
                PieceType::Queen => 3,
            };
            let color = piece.color();
            let value = psqt_at(table, table_index_of(square, color)) as i32 + piece_value(kind) as i32;
            signed_of(value, color)
        },
        None => 0,
    }
}

/// What the knights, bishops, rooks and queens on the board are worth, each with its
/// square, white counting up and black down.
pub fn psqt_score(board: &Board) -> (r: i32)
    requires
        board.wf(),
    ensures
        r == psqt_score_spec(board.position().squares),
{
    proof {
        board.lemma_wf_squares();
    }
    let mut score: i32 = 0;
    let mut square: u8 = 0;
    while square < 64
        invariant
            board.wf(),
            board.position().squares.len() == 64,
            square <= 64,
            score == psqt_sum(board.position().squares, square as int),
        decreases 64 - square,
    {
        proof {
            lemma_psqt_sum_bound(board.position().squares, square as int);
        }
        score = score + piece_term_of(board.piece_at(square), square);
        square = square + 1;
    }
    score
}

/// Whether the pawn table of a side is picked by the king standing at `king`.
fn pawn_table_for(king: Option<u8>) -> (r: u8)
    requires
        king matches Some(k) ==> k < 64,
    ensures
        r == pawn_table_of(
            match king {
                Some(k) => Some(k as int),
                None => None,
            },
        ),
        4 <= r <= 6,
{
    match king {
        Some(square) => {
            let file = file_of(square);
            if file <= 2 {
                6
            } else if file >= 5 {
                5
            } else {
                4
            }
        },
        None => 4,
    }
}

/// A king square as the specification reads it.
pub open spec fn square_opt(square: Option<u8>) -> Option<int> {
    match square {
        Some(s) => Some(s as int),
        None => None,
    }
}

fn pawn_term_of(occupant: Option<Piece>, square: u8, kings: [Option<u8>; 2], phase: i32) -> (r: i32)
    requires
        square < 64,
        occupant matches Some(p) ==> p.valid(),
        kings[0] matches Some(k) ==> k < 64,
        kings[1] matches Some(k) ==> k < 64,
        0 <= phase <= 24,
    ensures
        r == pawn_term(occupant, square as int, (square_opt(kings[0]), square_opt(kings[1])), phase as int),
        -34000 <= r <= 34000,
{
    match occupant {
        Some(piece) => {
            if !piece.is(PieceType::Pawn) {
                return 0;
            }
            let color = piece.color();
            let king = match color {
                Color::White => kings[0],
                Color::Black => kings[1],
            };
            let index = table_index_of(square, color);
            let blended = interpolate_of(psqt_at(pawn_table_for(king), index), psqt_at(7, index), phase);
            signed_of(PAWN_BASE as i32 + blended, color)
        },
        None => 0,
    }
}

/// What the pawns are worth, each on its square, blended between the table its king's
/// wing picks and the late table.
pub fn pawn_score(board: &Board, kings: [Option<u8>; 2], phase: i32) -> (r: i32)
    requires
        board.wf(),
        kings[0] matches Some(k) ==> k < 64,
        kings[1] matches Some(k) ==> k < 64,
        0 <= phase <= 24,
    ensures
        r == pawn_score_spec(board.position().squares, (square_opt(kings[0]), square_opt(kings[1])), phase as int),
{
    proof {
        board.lemma_wf_squares();
    }
    let ghost k = (square_opt(kings[0]), square_opt(kings[1]));
    let mut score: i32 = 0;
    let mut square: u8 = 0;
    while square < 64
        invariant
            board.wf(),
            board.position().squares.len() == 64,
            kings[0] matches Some(k) ==> k < 64,
            kings[1] matches Some(k) ==> k < 64,
            k == (square_opt(kings[0]), square_opt(kings[1])),
            0 <= phase <= 24,
            square <= 64,
            score == pawn_sum(board.position().squares, k, phase as int, square as int),
        decreases 64 - square,
    {
        proof {
            lemma_pawn_sum_bound(board.position().squares, k, phase as int, square as int);
        }
        score = score + pawn_term_of(board.piece_at(square), square, kings, phase);
        square = square + 1;
    }
    score
}

fn abs_u8_diff(a: u8, b: u8) -> (r: u8)
    ensures
        r == abs_spec(a - b),
{
    if a >= b {
        a - b
    } else {
        b - a
    }
}

/// No pawn of the same color stands on either neighbouring file.
fn is_isolated(board: &Board, square: u8, color: Color) -> (r: bool)
    requires
        board.wf(),
        square < 64,
    ensures
        r == isolated(board.position().squares, square as int, color),
{
    let pawn = Piece::new(PieceType::Pawn, color);
    let mut j: u8 = 0;
    while j < 64
        invariant
            board.wf(),
            square < 64,
            j <= 64,
            pawn == Piece::of(PieceType::Pawn, color),
            forall|i: int|
                0 <= i < j && abs_spec(file_spec(i) - file_spec(square as int)) == 1 ==> #[trigger] board.position().squares[i]
                    != Some(pawn),
        decreases 64 - j,
    {
        if abs_u8_diff(file_of(j), file_of(square)) == 1 && board.piece_at(j) == Some(pawn) {
            return false;
        }
        j = j + 1;
    }
    true
}

/// No enemy pawn stands ahead of it on its own file or a neighbouring one.
fn is_passed(board: &Board, square: u8, color: Color) -> (r: bool)
    requires
        board.wf(),
        square < 64,
    ensures
        r == passed(board.position().squares, square as int, color),
{
    let enemy_pawn = Piece::new(PieceType::Pawn, color.opponent());
    let mut j: u8 = 0;
    while j < 64
        invariant
            board.wf(),
            square < 64,
            j <= 64,
            enemy_pawn == Piece::of(PieceType::Pawn, opponent_of(color)),
            forall|i: int|
                0 <= i < j && abs_spec(file_spec(i) - file_spec(square as int)) <= 1 && ahead(color, square as int, i)
                    ==> #[trigger] board.position().squares[i] != Some(enemy_pawn),
        decreases 64 - j,
    {
        let is_ahead = match color {
            Color::White => rank_of(j) > rank_of(square),
            Color::Black => rank_of(j) < rank_of(square),
        };
        if abs_u8_diff(file_of(j), file_of(square)) <= 1 && is_ahead && board.piece_at(j) == Some(enemy_pawn) {
            return false;
        }
        j = j + 1;
    }
    true
}

/// Passed pawns rewarded, isolated ones punished.
pub fn pawn_structure(board: &Board) -> (r: i32)
    requires
        board.wf(),
    ensures
        r == pawn_structure_spec(board.position().squares),
{
    let mut score: i32 = 0;
    let mut square: u8 = 0;
    while square < 64
        invariant
            board.wf(),
            square <= 64,
            score == structure_sum(board.position().squares, square as int),
        decreases 64 - square,
    {
        proof {
            lemma_structure_sum_bound(board.position().squares, square as int);
        }
        match board.piece_at(square) {
            Some(piece) => {
                if piece.is(PieceType::Pawn) {
                    let color = piece.color();
                    let mut side: i32 = 0;
                    if is_isolated(board, square, color) {
                        side = side + ISOLATED_PAWN;
                    }
                    if is_passed(board, square, color) {
                        side = side + PASSED_PAWN;
                    }
                    score = score + signed_of(side, color);
                }
            },
            None => {},
        }
        square = square + 1;
    }
    score
}

/// The kings, each from the middlegame table turning into the endgame one.
pub fn king_score(kings: [Option<u8>; 2], phase: i32) -> (r: i32)
    requires
        kings[0] matches Some(k) ==> k < 64,
        kings[1] matches Some(k) ==> k < 64,
        0 <= phase <= 24,
    ensures
        r == king_score_spec((square_opt(kings[0]), square_opt(kings[1])), phase as int),
        -70000 <= r <= 70000,
{
    let mut score: i32 = 0;
    match kings[0] {
        Some(square) => {
            let index = table_index_of(square, Color::White);
            score = score + interpolate_of(psqt_at(8, index), psqt_at(9, index), phase);
        },
        None => {},
    }
    match kings[1] {
        Some(square) => {
            let index = table_index_of(square, Color::Black);
            score = score - interpolate_of(psqt_at(8, index), psqt_at(9, index), phase);
        },
        None => {},
    }
    score
}

/// The bishop pair, growing towards the endgame; both counts are [white, black].
pub fn bishop_pair_score(bishops: [usize; 2], phase: i32) -> (r: i32)
    requires
        0 <= phase <= 24,
    ensures
        r == bishop_pair_spec((bishops[0] as int, bishops[1] as int), phase as int),
        -70000 <= r <= 70000,
{
    let bonus = interpolate_of(BISHOP_PAIR_MIDDLEGAME, BISHOP_PAIR_ENDGAME, phase);
    let mut score: i32 = 0;
    if bishops[0] >= 2 {
        score = score + bonus;
    }
    if bishops[1] >= 2 {
        score = score - bonus;
    }
    score
}

/// The phase clamped into 0..=24.
pub fn clamped_phase_of(board: &Board) -> (r: i32)
    requires
        board.wf(),
    ensures
        r == clamped_phase(board.position().squares),
        0 <= r <= 24,
{
    let phase = board.phase();
    if phase < 0 {
        0
    } else if phase > TOTAL_PHASE {
        TOTAL_PHASE
    } else {
        phase
    }
}

/// The lowest square holding `piece` is what the scan from the bottom finds.
proof fn lemma_lowest(sq: Seq<Option<Piece>>, piece: Piece, i: int, found: Option<int>)
    requires
        0 <= i <= 64,
        found matches Some(k) ==> i <= k < 64 && sq[k] == Some(piece) && forall|j: int| i <= j < k ==> sq[j] != Some(piece),
        found is None ==> forall|j: int| i <= j < 64 ==> sq[j] != Some(piece),
    ensures
        lowest_from(sq, piece, i) == found,
    decreases 64 - i,
{
    if i < 64 {
        if sq[i] != Some(piece) {
            lemma_lowest(sq, piece, i + 1, found);
        }
    }
}

/// Where both kings stand, as the evaluation reads them.
pub fn kings_on(board: &Board) -> (r: [Option<u8>; 2])
    requires
        board.wf(),
    ensures
        (square_opt(r[0]), square_opt(r[1])) == kings_of(board.position().squares),
        r[0] matches Some(k) ==> k < 64,
        r[1] matches Some(k) ==> k < 64,
{
    let white = board.king_square(Color::White);
    let black = board.king_square(Color::Black);
    proof {
        lemma_lowest(board.position().squares, Piece::of(PieceType::King, Color::White), 0, square_opt(white));
        lemma_lowest(board.position().squares, Piece::of(PieceType::King, Color::Black), 0, square_opt(black));
    }
    [white, black]
}

/// Positive: the side to move stands better.
pub fn evaluate(board: &Board) -> (r: i32)
    requires
        board.wf(),
    ensures
        r == evaluate_spec(board.position().squares, board.position().turn),
{
    // cheap enough to ask before anything is scored
    if board.insufficient_material() {
        return 0;
    }
    let kings = kings_on(board);
    let phase = clamped_phase_of(board);
    let bishops = [board.count_pieces(PieceType::Bishop, Color::White), board.count_pieces(PieceType::Bishop, Color::Black)];
    proof {
        board.lemma_wf_squares();
        lemma_psqt_sum_bound(board.position().squares, 64);
        lemma_pawn_sum_bound(board.position().squares, (square_opt(kings[0]), square_opt(kings[1])), phase as int, 64);
        lemma_structure_sum_bound(board.position().squares, 64);
    }
    let score = psqt_score(board) + pawn_score(board, kings, phase) + pawn_structure(board) + king_score(kings, phase)
        + bishop_pair_score(bishops, phase);
    signed_of(score, board.turn())
}

/// The game phase as a share of a full board: 0.0 bare kings, 1.0 everything still there,
/// kept as the clamped count out of 24 so no fraction is needed.
pub fn game_phase_count(board: &Board) -> (r: i32)
    requires
        board.wf(),
    ensures
        r == clamped_phase(board.position().squares),
{
    clamped_phase_of(board)
}

/// The evaluation is counted for the side to move: the same squares with the other
/// side to move score exactly the negation.
pub proof fn law_score_is_for_the_side_to_move(sq: Seq<Option<Piece>>)
    ensures
        evaluate_spec(sq, Color::Black) == -evaluate_spec(sq, Color::White),
{
}

} // verus!
