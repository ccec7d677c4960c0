// Castling rights and the squares castling involves.
use vstd::prelude::*;
use crate::board::piece::Color;

verus! {

/// King side = short castle (towards the h file), queen side = long castle (towards the a file).
#[derive(Clone, Copy, PartialEq, Eq, Debug, Structural)]
pub enum CastleSide {
    King,
    Queen,
}

pub fn castle_sides() -> (r: [CastleSide; 2])
    ensures
        r@ == seq![CastleSide::King, CastleSide::Queen],
{
    let r = [CastleSide::King, CastleSide::Queen];
    assert(r@ =~= seq![CastleSide::King, CastleSide::Queen]);
    r
}

/// The four castling flags in a fixed order - also the order of the zobrist castling keys.
pub open spec fn castle_flag(index: int) -> (Color, CastleSide) {
    if index == 0 {
        (Color::White, CastleSide::King)
    } else if index == 1 {
        (Color::White, CastleSide::Queen)
    } else if index == 2 {
        (Color::Black, CastleSide::King)
    } else {
        (Color::Black, CastleSide::Queen)
    }
}

pub fn castle_flags() -> (r: [(Color, CastleSide); 4])
    ensures
        forall|i: int| 0 <= i < 4 ==> r@[i] == #[trigger] castle_flag(i),
{
    [
        (Color::White, CastleSide::King),
        (Color::White, CastleSide::Queen),
        (Color::Black, CastleSide::King),
        (Color::Black, CastleSide::Queen),
    ]
}

/// One flag per castling side, cleared for good as soon as the king moves or the
/// matching rook moves away from / is captured on its start square.
#[derive(Clone, Copy, PartialEq, Eq, Debug, Structural)]
pub struct CastlingRights {
    white_king_side: bool,
    white_queen_side: bool,
    black_king_side: bool,
    black_queen_side: bool,
}

impl CastlingRights {
    /// Whether this side may still castle that way.
    pub closed spec fn allows(self, color: Color, side: CastleSide) -> bool {
        match (color, side) {
            (Color::White, CastleSide::King) => self.white_king_side,
            (Color::White, CastleSide::Queen) => self.white_queen_side,
            (Color::Black, CastleSide::King) => self.black_king_side,
            (Color::Black, CastleSide::Queen) => self.black_queen_side,
        }
    }

    /// Every castle still open.
    pub fn all() -> (r: CastlingRights)
        ensures
            forall|c: Color, s: CastleSide| #[trigger] r.allows(c, s),
    {
        CastlingRights {
            white_king_side: true,
            white_queen_side: true,
            black_king_side: true,
            black_queen_side: true,
        }
    }

    /// No castle left to either side.
    pub fn none() -> (r: CastlingRights)
        ensures
            forall|c: Color, s: CastleSide| !#[trigger] r.allows(c, s),
    {
        CastlingRights {
            white_king_side: false,
            white_queen_side: false,
            black_king_side: false,
            black_queen_side: false,
        }
    }

    /// The rights with the four flags given, in the order of `castle_flag`.
    pub fn from_flags(wk: bool, wq: bool, bk: bool, bq: bool) -> (r: CastlingRights)
        ensures
            r.allows(Color::White, CastleSide::King) == wk,
            r.allows(Color::White, CastleSide::Queen) == wq,
            r.allows(Color::Black, CastleSide::King) == bk,
            r.allows(Color::Black, CastleSide::Queen) == bq,
    {
        CastlingRights {
            white_king_side: wk,
            white_queen_side: wq,
            black_king_side: bk,
            black_queen_side: bq,
        }
    }

    pub fn get(self, color: Color, side: CastleSide) -> (r: bool)
        ensures
            r == self.allows(color, side),
    {
        match (color, side) {
            (Color::White, CastleSide::King) => self.white_king_side,
            (Color::White, CastleSide::Queen) => self.white_queen_side,
            (Color::Black, CastleSide::King) => self.black_king_side,
            (Color::Black, CastleSide::Queen) => self.black_queen_side,
        }
    }

    pub fn clear(&mut self, color: Color, side: CastleSide)
        ensures
            !final(self).allows(color, side),
            forall|c: Color, s: CastleSide|
                (c, s) != (color, side) ==> #[trigger] final(self).allows(c, s) == old(self).allows(c, s),
    {
        match (color, side) {
            (Color::White, CastleSide::King) => self.white_king_side = false,
            (Color::White, CastleSide::Queen) => self.white_queen_side = false,
            (Color::Black, CastleSide::King) => self.black_king_side = false,
            (Color::Black, CastleSide::Queen) => self.black_queen_side = false,
        }
    }

    /// The king moved, so both of that side's castles are gone.
    pub fn clear_color(&mut self, color: Color)
        ensures
            forall|s: CastleSide| !#[trigger] final(self).allows(color, s),
            forall|c: Color, s: CastleSide| c != color ==> #[trigger] final(self).allows(c, s) == old(self).allows(c, s),
    {
        self.clear(color, CastleSide::King);
        self.clear(color, CastleSide::Queen);
    }

    /// A rook that leaves its start square, or gets captured on it, ends that castling side.
    pub fn clear_on_square(&mut self, square: u8)
        ensures
            forall|c: Color, s: CastleSide| #[trigger] final(self).allows(c, s) == (old(self).allows(c, s) && rook_start_spec(c, s) != square),
    {
        let flags = castle_flags();
        let mut index: usize = 0;
        while index < 4
            invariant
                0 <= index <= 4,
                forall|i: int| 0 <= i < 4 ==> flags@[i] == #[trigger] castle_flag(i),
                forall|c: Color, s: CastleSide| #[trigger] self.allows(c, s) == (old(self).allows(c, s) && !(rook_start_spec(c, s) == square && flag_index(c, s) < index)),
            decreases 4 - index,
        {
            let (color, side) = flags[index];
            assert(castle_flag(index as int) == (color, side));
            assert(flag_index(color, side) == index);
            if rook_start_square(color, side) == square {
                self.clear(color, side);
            }
            index += 1;
        }
    }
}

/// Where a flag stands in the order of `castle_flag`.
pub open spec fn flag_index(color: Color, side: CastleSide) -> int {
    match (color, side) {
        (Color::White, CastleSide::King) => 0,
        (Color::White, CastleSide::Queen) => 1,
        (Color::Black, CastleSide::King) => 2,
        (Color::Black, CastleSide::Queen) => 3,
    }
}

/// Two rights that allow the same castles are the same rights.
pub proof fn lemma_rights_ext(a: CastlingRights, b: CastlingRights)
    requires
        forall|c: Color, s: CastleSide| a.allows(c, s) == b.allows(c, s),
    ensures
        a == b,
{
    assert(a.allows(Color::White, CastleSide::King) == b.allows(Color::White, CastleSide::King));
    assert(a.allows(Color::White, CastleSide::Queen) == b.allows(Color::White, CastleSide::Queen));
    assert(a.allows(Color::Black, CastleSide::King) == b.allows(Color::Black, CastleSide::King));
    assert(a.allows(Color::Black, CastleSide::Queen) == b.allows(Color::Black, CastleSide::Queen));
}

pub open spec fn king_start_spec(color: Color) -> int {
    match color {
        Color::White => 4,
        Color::Black => 60,
    }
}

pub open spec fn rook_start_spec(color: Color, side: CastleSide) -> int {
    match (color, side) {
        (Color::White, CastleSide::King) => 7,
        (Color::White, CastleSide::Queen) => 0,
        (Color::Black, CastleSide::King) => 63,
        (Color::Black, CastleSide::Queen) => 56,
    }
}

pub open spec fn king_castle_spec(color: Color, side: CastleSide) -> int {
    match (color, side) {
        (Color::White, CastleSide::King) => 6,
        (Color::White, CastleSide::Queen) => 2,
        (Color::Black, CastleSide::King) => 62,
        (Color::Black, CastleSide::Queen) => 58,
    }
}

pub open spec fn rook_castle_spec(color: Color, side: CastleSide) -> int {
    match (color, side) {
        (Color::White, CastleSide::King) => 5,
        (Color::White, CastleSide::Queen) => 3,
        (Color::Black, CastleSide::King) => 61,
        (Color::Black, CastleSide::Queen) => 59,
    }
}

/// e1 / e8
pub fn king_start_square(color: Color) -> (r: u8)
    ensures
        r == king_start_spec(color),
{
    match color {
        Color::White => 4,
        Color::Black => 60,
    }
}

/// a1 / h1 / a8 / h8
pub fn rook_start_square(color: Color, side: CastleSide) -> (r: u8)
    ensures
        r == rook_start_spec(color, side),
{
    match (color, side) {
        (Color::White, CastleSide::King) => 7,
        (Color::White, CastleSide::Queen) => 0,
        (Color::Black, CastleSide::King) => 63,
        (Color::Black, CastleSide::Queen) => 56,
    }
}

/// Where the king ends up after castling (g1 / c1 / g8 / c8).
pub fn king_castle_square(color: Color, side: CastleSide) -> (r: u8)
    ensures
        r == king_castle_spec(color, side),
{
    match (color, side) {
        (Color::White, CastleSide::King) => 6,
        (Color::White, CastleSide::Queen) => 2,
        (Color::Black, CastleSide::King) => 62,
        (Color::Black, CastleSide::Queen) => 58,
    }
}

/// Where the rook ends up after castling (f1 / d1 / f8 / d8), which is also the square
/// the king crosses.
pub fn rook_castle_square(color: Color, side: CastleSide) -> (r: u8)
    ensures
        r == rook_castle_spec(color, side),
{
    match (color, side) {
        (Color::White, CastleSide::King) => 5,
        (Color::White, CastleSide::Queen) => 3,
        (Color::Black, CastleSide::King) => 61,
        (Color::Black, CastleSide::Queen) => 59,
    }
}

} // verus!
