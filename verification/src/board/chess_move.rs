// A move, and what the board has to remember to be able to take it back.
use vstd::prelude::*;
use crate::board::castling::{CastleSide, CastlingRights};
use crate::board::piece::{Piece, PieceType, letter_of, type_of_letter};
use crate::board::square::{square_from_chars, square_name, square_name_spec, index_of};
use crate::text::push_char;

verus! {

#[derive(Clone, Copy, PartialEq, Eq, Debug, Structural)]
pub struct Move {
    pub from: u8,
    pub to: u8,
    pub piece: Piece,
    pub captured: Option<Piece>,
    pub castle: Option<CastleSide>,
    /// The piece type the pawn turned into, set only on promotion moves; `piece` stays
    /// the pawn, so undo_move can put the pawn back.
    pub promotion: Option<PieceType>,
    /// True when this is an en passant capture: then `captured` does not stand on `to`
    /// but on the square next to `from`.
    pub en_passant: bool,
}

/// The move as the two squares it goes between, with the promoted piece after them.
pub open spec fn coordinates_spec(m: Move) -> Seq<char> {
    square_name_spec(m.from as int) + square_name_spec(m.to as int) + match m.promotion {
        Some(t) => seq![letter_of(t)],
        None => Seq::<char>::empty(),
    }
}

/// A move after which no earlier position can ever show up again.
pub open spec fn irreversible(m: Move) -> bool {
    m.captured.is_some() || m.piece.kind() == PieceType::Pawn
}

impl Move {
    /// An ordinary (non castling, non promoting) move.
    pub fn normal(from: u8, to: u8, piece: Piece, captured: Option<Piece>) -> (r: Move)
        ensures
            r == (Move { from, to, piece, captured, castle: None, promotion: None, en_passant: false }),
    {
        Move { from, to, piece, captured, castle: None, promotion: None, en_passant: false }
    }

    /// A pawn capturing a pawn that just passed by.
    pub fn en_passant_capture(from: u8, to: u8, piece: Piece, captured: Piece) -> (r: Move)
        ensures
            r == (Move { from, to, piece, captured: Some(captured), castle: None, promotion: None, en_passant: true }),
    {
        Move { from, to, piece, captured: Some(captured), castle: None, promotion: None, en_passant: true }
    }

    /// A pawn move that ends on the last rank.
    pub fn promoting(from: u8, to: u8, piece: Piece, captured: Option<Piece>, promote_to: PieceType) -> (r: Move)
        ensures
            r == (Move { from, to, piece, captured, castle: None, promotion: Some(promote_to), en_passant: false }),
    {
        Move { from, to, piece, captured, castle: None, promotion: Some(promote_to), en_passant: false }
    }

    /// The king's part of a castle; make_move moves the rook along with it.
    pub fn castling(king: Piece, from: u8, to: u8, side: CastleSide) -> (r: Move)
        ensures
            r == (Move { from, to, piece: king, captured: None, castle: Some(side), promotion: None, en_passant: false }),
    {
        Move { from, to, piece: king, captured: None, castle: Some(side), promotion: None, en_passant: false }
    }

    /// The move as the two squares it goes between, e.g. "e2e4", with the promoted piece
    /// after them when there is one.
    pub fn coordinates(&self) -> (r: String)
        requires
            self.from < 64,
            self.to < 64,
        ensures
            r@ == coordinates_spec(*self),
    {
        let from = square_name(self.from);
        let to = square_name(self.to);
        let mut text = from;
        push_char(&mut text, to.as_str().get_char(0));
        push_char(&mut text, to.as_str().get_char(1));
        let ghost base = text@;
        assert(base =~= square_name_spec(self.from as int) + square_name_spec(self.to as int));
        match self.promotion {
            Some(promotion) => {
                push_char(&mut text, promotion.letter());
                assert(text@ =~= coordinates_spec(*self));
            },
            None => {
                assert(text@ =~= coordinates_spec(*self));
            },
        }
        text
    }

    /// A move after which no earlier position can ever show up again (the same rule the
    /// fifty move counter resets on).
    pub fn is_irreversible(&self) -> (r: bool)
        requires
            self.piece.valid(),
        ensures
            r == irreversible(*self),
    {
        self.captured.is_some() || self.piece.is(PieceType::Pawn)
    }
}

/// The two squares and the promotion in a move written the way `coordinates` writes it.
pub open spec fn parse_coordinates_spec(text: Seq<char>) -> Option<(int, int, Option<PieceType>)> {
    if !(text.len() == 4 || text.len() == 5) {
        None
    } else if !('a' <= text[0] <= 'h' && '1' <= text[1] <= '8' && 'a' <= text[2] <= 'h' && '1' <= text[3] <= '8') {
        None
    } else if text.len() == 5 && type_of_letter(text[4]).is_none() {
        None
    } else {
        Some((
            index_of(text[0] as int - 97, text[1] as int - 49),
            index_of(text[2] as int - 97, text[3] as int - 49),
            if text.len() == 5 { type_of_letter(text[4]) } else { None },
        ))
    }
}

/// The two squares and the promotion in a move written the way `coordinates` writes it -
/// the piece it moves is not in there, so only a board can turn this into a Move.
pub fn parse_coordinates(text: &str) -> (r: Option<(u8, u8, Option<PieceType>)>)
    ensures
        r.is_some() == parse_coordinates_spec(text@).is_some(),
        r matches Some(p) ==> p.0 < 64 && p.1 < 64 && parse_coordinates_spec(text@) == Some((p.0 as int, p.1 as int, p.2)),
{
    let length = text.unicode_len();
    if length != 4 && length != 5 {
        return None;
    }
    let from = match square_from_chars(text.get_char(0), text.get_char(1)) {
        Some(square) => square,
        None => return None,
    };
    let to = match square_from_chars(text.get_char(2), text.get_char(3)) {
        Some(square) => square,
        None => return None,
    };
    let promotion = if length == 5 {
        match PieceType::from_letter(text.get_char(4)) {
            Some(piece_type) => Some(piece_type),
            None => return None,
        }
    } else {
        None
    };
    Some((from, to, promotion))
}

/// One entry of the board's history: the move plus the bits of state that cannot be
/// worked out from the position afterwards.
#[derive(Clone, Copy, PartialEq, Eq, Debug, Structural)]
pub struct MoveRecord {
    pub chess_move: Move,
    pub castling_rights_before: CastlingRights,
    /// The en passant target that was in effect before the move.
    pub en_passant_before: Option<u8>,
    /// The halfmove clock as it stood before the move, which a reset cannot recover.
    pub halfmove_clock_before: u16,
}

} // verus!
