// The two sides and the pieces they own.
//
// A Piece is packed into a single byte: the low three bits are the piece type,
// the fourth is the color. That keeps a piece cheap to copy and lets the byte be
// used directly as an index into the zobrist keys.
use vstd::prelude::*;

verus! {

#[derive(Clone, Copy, PartialEq, Eq, Debug, Structural)]
pub enum PieceType {
    King,
    Pawn,
    Knight,
    Bishop,
    Rook,
    Queen,
}

/// The number a piece type is packed as: King 1 up to Queen 6.
pub open spec fn type_number(piece_type: PieceType) -> u8 {
    match piece_type {
        PieceType::King => 1,
        PieceType::Pawn => 2,
        PieceType::Knight => 3,
        PieceType::Bishop => 4,
        PieceType::Rook => 5,
        PieceType::Queen => 6,
    }
}

/// The piece type a packed number stands for; anything out of 1..=6 reads as a king.
pub open spec fn type_of_number(bits: u8) -> PieceType {
    if bits == 2 {
        PieceType::Pawn
    } else if bits == 3 {
        PieceType::Knight
    } else if bits == 4 {
        PieceType::Bishop
    } else if bits == 5 {
        PieceType::Rook
    } else if bits == 6 {
        PieceType::Queen
    } else {
        PieceType::King
    }
}

/// What a piece of this type counts towards the game phase.
pub open spec fn phase_weight_of(piece_type: PieceType) -> int {
    match piece_type {
        PieceType::King | PieceType::Pawn => 0,
        PieceType::Knight | PieceType::Bishop => 1,
        PieceType::Rook => 2,
        PieceType::Queen => 4,
    }
}

pub open spec fn letter_of(piece_type: PieceType) -> char {
    match piece_type {
        PieceType::King => 'k',
        PieceType::Pawn => 'p',
        PieceType::Knight => 'n',
        PieceType::Bishop => 'b',
        PieceType::Rook => 'r',
        PieceType::Queen => 'q',
    }
}

/// The piece type a lowercase letter names, if any.
pub open spec fn type_of_letter(letter: char) -> Option<PieceType> {
    if letter == 'k' {
        Some(PieceType::King)
    } else if letter == 'p' {
        Some(PieceType::Pawn)
    } else if letter == 'n' {
        Some(PieceType::Knight)
    } else if letter == 'b' {
        Some(PieceType::Bishop)
    } else if letter == 'r' {
        Some(PieceType::Rook)
    } else if letter == 'q' {
        Some(PieceType::Queen)
    } else {
        None
    }
}

impl PieceType {
    /// The type bits of a packed piece back into a type; only ever called on bits that
    /// came out of `Piece::new`.
    pub fn from_bits(bits: u8) -> (r: PieceType)
        requires
            1 <= bits <= 6,
        ensures
            r == type_of_number(bits),
            type_number(r) == bits,
    {
        match bits {
            1 => PieceType::King,
            2 => PieceType::Pawn,
            3 => PieceType::Knight,
            4 => PieceType::Bishop,
            5 => PieceType::Rook,
            _ => PieceType::Queen,
        }
    }

    /// What this piece counts towards the game phase - kings and pawns count nothing,
    /// since a board of nothing but pawns is an endgame.
    pub fn phase_weight(self) -> (r: i32)
        ensures
            r == phase_weight_of(self),
    {
        match self {
            PieceType::King | PieceType::Pawn => 0,
            PieceType::Knight | PieceType::Bishop => 1,
            PieceType::Rook => 2,
            PieceType::Queen => 4,
        }
    }

    /// The usual algebraic letter, lowercase.
    pub fn letter(self) -> (r: char)
        ensures
            r == letter_of(self),
    {
        match self {
            PieceType::King => 'k',
            PieceType::Pawn => 'p',
            PieceType::Knight => 'n',
            PieceType::Bishop => 'b',
            PieceType::Rook => 'r',
            PieceType::Queen => 'q',
        }
    }

    /// The piece type a lowercase letter names, as `letter` writes it.
    pub fn from_letter(letter: char) -> (r: Option<PieceType>)
        ensures
            r == type_of_letter(letter),
    {
        if letter == 'k' {
            Some(PieceType::King)
        } else if letter == 'p' {
            Some(PieceType::Pawn)
        } else if letter == 'n' {
            Some(PieceType::Knight)
        } else if letter == 'b' {
            Some(PieceType::Bishop)
        } else if letter == 'r' {
            Some(PieceType::Rook)
        } else if letter == 'q' {
            Some(PieceType::Queen)
        } else {
            None
        }
    }

    /// The position of this type among the six, king first.
    pub fn board_index(self) -> (r: usize)
        ensures
            r + 1 == type_number(self),
    {
        match self {
            PieceType::King => 0,
            PieceType::Pawn => 1,
            PieceType::Knight => 2,
            PieceType::Bishop => 3,
            PieceType::Rook => 4,
            PieceType::Queen => 5,
        }
    }
}

/// Every type, in the order the move generator walks them.
pub fn all_piece_types() -> (r: [PieceType; 6])
    ensures
        r@ == seq![
            PieceType::King,
            PieceType::Pawn,
            PieceType::Knight,
            PieceType::Bishop,
            PieceType::Rook,
            PieceType::Queen,
        ],
{
    let r = [
        PieceType::King,
        PieceType::Pawn,
        PieceType::Knight,
        PieceType::Bishop,
        PieceType::Rook,
        PieceType::Queen,
    ];
    assert(r@ =~= seq![
        PieceType::King,
        PieceType::Pawn,
        PieceType::Knight,
        PieceType::Bishop,
        PieceType::Rook,
        PieceType::Queen,
    ]);
    r
}

/// What a pawn may become, in the order the generator hands the choices out.
pub open spec fn promotion_choice(index: int) -> PieceType {
    if index == 0 {
        PieceType::Queen
    } else if index == 1 {
        PieceType::Rook
    } else if index == 2 {
        PieceType::Bishop
    } else {
        PieceType::Knight
    }
}

pub open spec fn is_promotion_choice(piece_type: PieceType) -> bool {
    piece_type != PieceType::King && piece_type != PieceType::Pawn
}

/// The index of a promotion choice in that order.
pub open spec fn promotion_index(piece_type: PieceType) -> int {
    match piece_type {
        PieceType::Queen => 0,
        PieceType::Rook => 1,
        PieceType::Bishop => 2,
        _ => 3,
    }
}

pub fn promotion_choices() -> (r: [PieceType; 4])
    ensures
        forall|i: int| 0 <= i < 4 ==> r@[i] == promotion_choice(i),
        r@.len() == 4,
{
    [PieceType::Queen, PieceType::Rook, PieceType::Bishop, PieceType::Knight]
}

#[derive(Clone, Copy, PartialEq, Eq, Debug, Structural)]
pub enum Color {
    White,
    Black,
}

pub open spec fn opponent_of(color: Color) -> Color {
    match color {
        Color::White => Color::Black,
        Color::Black => Color::White,
    }
}

/// The rank step a pawn of this color moves in.
pub open spec fn pawn_direction_of(color: Color) -> int {
    match color {
        Color::White => 1,
        Color::Black => -1,
    }
}

pub open spec fn pawn_start_rank_of(color: Color) -> int {
    match color {
        Color::White => 1,
        Color::Black => 6,
    }
}

pub open spec fn promotion_rank_of(color: Color) -> int {
    match color {
        Color::White => 7,
        Color::Black => 0,
    }
}

pub open spec fn en_passant_rank_of(color: Color) -> int {
    match color {
        Color::White => 5,
        Color::Black => 2,
    }
}

pub open spec fn color_index_of(color: Color) -> int {
    match color {
        Color::White => 0,
        Color::Black => 1,
    }
}

impl Color {
    pub fn opponent(self) -> (r: Color)
        ensures
            r == opponent_of(self),
    {
        match self {
            Color::White => Color::Black,
            Color::Black => Color::White,
        }
    }

    /// The two sides as the rows of a table with one entry per color.
    pub fn index(self) -> (r: usize)
        ensures
            r == color_index_of(self),
    {
        match self {
            Color::White => 0,
            Color::Black => 1,
        }
    }

    /// The rank step a pawn of this color moves in.
    pub fn pawn_direction(self) -> (r: i8)
        ensures
            r == pawn_direction_of(self),
    {
        match self {
            Color::White => 1,
            Color::Black => -1,
        }
    }

    /// The rank this side's pawns start on, the only one they may push twice from.
    pub fn pawn_start_rank(self) -> (r: u8)
        ensures
            r == pawn_start_rank_of(self),
    {
        match self {
            Color::White => 1,
            Color::Black => 6,
        }
    }

    /// The rank a pawn of this color promotes on.
    pub fn promotion_rank(self) -> (r: u8)
        ensures
            r == promotion_rank_of(self),
    {
        match self {
            Color::White => 7,
            Color::Black => 0,
        }
    }

    /// The rank a pawn of this color lands on when it captures en passant.
    pub fn en_passant_rank(self) -> (r: u8)
        ensures
            r == en_passant_rank_of(self),
    {
        match self {
            Color::White => 5,
            Color::Black => 2,
        }
    }
}

/// Both sides, white first.
pub fn both_colors() -> (r: [Color; 2])
    ensures
        r@ == seq![Color::White, Color::Black],
{
    let r = [Color::White, Color::Black];
    assert(r@ =~= seq![Color::White, Color::Black]);
    r
}

/// The color bit of a packed piece: white 0, black 8.
pub open spec fn color_number(color: Color) -> u8 {
    match color {
        Color::White => 0,
        Color::Black => 8,
    }
}

#[derive(Clone, Copy, PartialEq, Eq, Debug, Structural)]
pub struct Piece(u8);

/// The byte a piece of this type and color is packed into.
pub open spec fn packed(piece_type: PieceType, color: Color) -> u8 {
    (type_number(piece_type) + color_number(color)) as u8
}

proof fn lemma_pack_is_or(t: u8, c: u8)
    requires
        1 <= t <= 6,
        c == 0 || c == 8,
    ensures
        t | c == t + c,
        (t | c) & 7 == t,
        (t | c) & 8 == c,
{
    assert(t | c == t + c && (t | c) & 7 == t && (t | c) & 8 == c) by (bit_vector)
        requires
            1 <= t <= 6,
            c == 0 || c == 8,
    ;
}

proof fn lemma_unpack(v: u8)
    requires
        (1 <= v <= 6) || (9 <= v <= 14),
    ensures
        v & 7 == (if v >= 8 { v - 8 } else { v as int }),
        (v & 8 == 0) == (v < 8),
{
    assert(v & 7 == (if v >= 8 { (v - 8) as u8 } else { v }) && ((v & 8 == 0) == (v < 8))) by (bit_vector)
        requires
            (1 <= v <= 6) || (9 <= v <= 14),
    ;
}

impl Piece {
    /// The biggest packed value is Queen | Black = 6 | 8 = 14, so a table indexed by the
    /// raw byte needs 15 rows.
    pub const ZOBRIST_INDEX_COUNT: usize = 15;

    /// The packed byte.
    pub closed spec fn bits(self) -> u8 {
        self.0
    }

    /// A byte some piece packs into.
    pub closed spec fn valid(self) -> bool {
        (1 <= self.0 <= 6) || (9 <= self.0 <= 14)
    }

    pub closed spec fn kind(self) -> PieceType {
        type_of_number(if self.0 >= 8 { (self.0 - 8) as u8 } else { self.0 })
    }

    pub closed spec fn side(self) -> Color {
        if self.0 >= 8 {
            Color::Black
        } else {
            Color::White
        }
    }

    /// The piece of this type and color, as a value.
    pub closed spec fn of(piece_type: PieceType, color: Color) -> Piece {
        Piece(packed(piece_type, color))
    }

    pub fn new(piece_type: PieceType, color: Color) -> (r: Piece)
        ensures
            r == Piece::of(piece_type, color),
            r.valid(),
            r.kind() == piece_type,
            r.side() == color,
    {
        let t: u8 = match piece_type {
            PieceType::King => 1,
            PieceType::Pawn => 2,
            PieceType::Knight => 3,
            PieceType::Bishop => 4,
            PieceType::Rook => 5,
            PieceType::Queen => 6,
        };
        let c: u8 = match color {
            Color::White => 0,
            Color::Black => 8,
        };
        proof {
            lemma_pack_is_or(t, c);
        }
        Piece(t | c)
    }

    pub fn piece_type(self) -> (r: PieceType)
        requires
            self.valid(),
        ensures
            r == self.kind(),
    {
        proof {
            lemma_unpack(self.0);
        }
        PieceType::from_bits(self.0 & 7)
    }

    pub fn color(self) -> (r: Color)
        requires
            self.valid(),
        ensures
            r == self.side(),
    {
        proof {
            lemma_unpack(self.0);
        }
        if self.0 & 8 == 0 {
            Color::White
        } else {
            Color::Black
        }
    }

    pub fn is(self, piece_type: PieceType) -> (r: bool)
        requires
            self.valid(),
        ensures
            r == (self.kind() == piece_type),
    {
        self.piece_type() == piece_type
    }

    /// Uppercase for white, lowercase for black, as in FEN.
    pub fn symbol(self) -> (r: char)
        requires
            self.valid(),
        ensures
            r == symbol_of(self),
    {
        let letter = self.piece_type().letter();
        match self.color() {
            Color::White => upper(letter),
            Color::Black => letter,
        }
    }

    /// The row this piece occupies in the zobrist piece table.
    pub fn zobrist_index(self) -> (r: usize)
        ensures
            r == self.bits(),
    {
        self.0 as usize
    }
}

pub open spec fn upper_of(letter: char) -> char {
    if letter == 'k' {
        'K'
    } else if letter == 'p' {
        'P'
    } else if letter == 'n' {
        'N'
    } else if letter == 'b' {
        'B'
    } else if letter == 'r' {
        'R'
    } else if letter == 'q' {
        'Q'
    } else {
        letter
    }
}

fn upper(letter: char) -> (r: char)
    ensures
        r == upper_of(letter),
{
    if letter == 'k' {
        'K'
    } else if letter == 'p' {
        'P'
    } else if letter == 'n' {
        'N'
    } else if letter == 'b' {
        'B'
    } else if letter == 'r' {
        'R'
    } else if letter == 'q' {
        'Q'
    } else {
        letter
    }
}

pub open spec fn symbol_of(piece: Piece) -> char {
    match piece.side() {
        Color::White => upper_of(letter_of(piece.kind())),
        Color::Black => letter_of(piece.kind()),
    }
}

/// A packed piece unpacks to the type and color it was packed from.
pub broadcast proof fn lemma_piece_roundtrip(piece_type: PieceType, color: Color)
    ensures
        #[trigger] Piece::of(piece_type, color).valid(),
        Piece::of(piece_type, color).kind() == piece_type,
        Piece::of(piece_type, color).side() == color,
{
}

/// A valid piece is the piece of its own type and color.
pub broadcast proof fn lemma_piece_is_of(piece: Piece)
    requires
        #[trigger] piece.valid(),
    ensures
        piece == Piece::of(piece.kind(), piece.side()),
        piece.bits() < Piece::ZOBRIST_INDEX_COUNT,
{
}

pub broadcast group group_piece {
    lemma_piece_roundtrip,
    lemma_piece_is_of,
}

/// Two different type-and-color pairs never share a zobrist row.
pub proof fn law_each_piece_has_a_zobrist_row_of_its_own(t1: PieceType, c1: Color, t2: PieceType, c2: Color)
    requires
        (t1, c1) != (t2, c2),
    ensures
        Piece::of(t1, c1).bits() != Piece::of(t2, c2).bits(),
        Piece::of(t1, c1).bits() < Piece::ZOBRIST_INDEX_COUNT,
{
}

} // verus!
