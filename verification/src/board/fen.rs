// FEN: a position written out as one line of text - where the pieces stand rank by
// rank from the eighth down, the side to move, the castling rights, the en passant
// target and the move counters.
use vstd::prelude::*;
use crate::board::board::Board;
use crate::board::castling::{CastleSide, CastlingRights, lemma_rights_ext};
use crate::board::piece::{Color, Piece, PieceType, symbol_of, type_of_letter, group_piece};
use crate::board::rules::{Position, valid_en_passant, valid_squares};
use crate::board::square::{
    file_spec, rank_spec, square_from_name, square_from_name_spec, square_name, square_name_spec,
};
use crate::text::{
    decimal_spec, digit_char, is_blank, is_word, lemma_decimal_digits, lemma_digit_char, lemma_parse_decimal, lemma_spaced_words,
    parse_unsigned, parse_unsigned_spec, push_char, push_decimal, spaced, split_words, texts, words_spec,
};

verus! {

broadcast use group_piece;

/// The lowercase letter of an uppercase one, and any other character as it is.
pub open spec fn lower_of(c: char) -> char {
    if c == 'K' {
        'k'
    } else if c == 'Q' {
        'q'
    } else if c == 'R' {
        'r'
    } else if c == 'B' {
        'b'
    } else if c == 'N' {
        'n'
    } else if c == 'P' {
        'p'
    } else {
        c
    }
}

/// The piece a FEN letter stands for: uppercase for white, lowercase for black.
pub open spec fn piece_of_symbol(c: char) -> Option<Piece> {
    if c == 'K' || c == 'Q' || c == 'R' || c == 'B' || c == 'N' || c == 'P' {
        Some(Piece::of(type_of_letter(lower_of(c)).unwrap(), Color::White))
    } else {
        match type_of_letter(c) {
            Some(t) => Some(Piece::of(t, Color::Black)),
            None => None,
        }
    }
}

/// The squares a placement field describes, read from character `i` on, `rank` and
/// `file` being where the next square goes; None when the field is malformed.
pub open spec fn placement_from(t: Seq<char>, i: int, rank: int, file: int, sq: Seq<Option<Piece>>) -> Option<Seq<Option<Piece>>>
    decreases t.len() - i,
{
    if i >= t.len() || i < 0 {
        if rank == 0 && file == 8 { Some(sq) } else { None }
    } else {
        let c = t[i];
        if c == '/' {
            if file == 8 && rank > 0 { placement_from(t, i + 1, rank - 1, 0, sq) } else { None }
        } else if '1' <= c <= '8' {
            let n = c as int - 48;
            if file + n <= 8 { placement_from(t, i + 1, rank, file + n, sq) } else { None }
        } else {
            match piece_of_symbol(c) {
                Some(p) => if file < 8 {
                    placement_from(t, i + 1, rank, file + 1, sq.update(rank * 8 + file, Some(p)))
                } else {
                    None
                },
                None => None,
            }
        }
    }
}

/// Sixty-four empty squares.
pub open spec fn empty_squares() -> Seq<Option<Piece>> {
    Seq::new(64, |i: int| None::<Piece>)
}

/// The squares of a placement field, the eighth rank first.
pub open spec fn placement_spec(t: Seq<char>) -> Option<Seq<Option<Piece>>> {
    placement_from(t, 0, 7, 0, empty_squares())
}

/// The side a side-to-move field names.
pub open spec fn side_spec(t: Seq<char>) -> Option<Color> {
    if t == seq!['w'] {
        Some(Color::White)
    } else if t == seq!['b'] {
        Some(Color::Black)
    } else {
        None
    }
}

/// A castling field: "-", or letters out of "KQkq".
pub open spec fn castling_field_ok(t: Seq<char>) -> bool {
    t == seq!['-'] || (t.len() > 0 && forall|i: int| 0 <= i < t.len() ==> (#[trigger] t[i] == 'K' || t[i] == 'Q' || t[i] == 'k' || t[i] == 'q'))
}

/// Whether a castling field grants this castle.
pub open spec fn castle_letter(color: Color, side: CastleSide) -> char {
    match (color, side) {
        (Color::White, CastleSide::King) => 'K',
        (Color::White, CastleSide::Queen) => 'Q',
        (Color::Black, CastleSide::King) => 'k',
        (Color::Black, CastleSide::Queen) => 'q',
    }
}

/// An en passant field: "-", or a square on the third or sixth rank.
pub open spec fn en_passant_spec(t: Seq<char>) -> Option<Option<int>> {
    if t == seq!['-'] {
        Some(None)
    } else {
        match square_from_name_spec(t) {
            Some(s) => if rank_spec(s) == 2 || rank_spec(s) == 5 { Some(Some(s)) } else { None },
            None => None,
        }
    }
}

/// A FEN line is well formed: four to six fields, a placement of eight ranks of eight
/// squares, "w" or "b", a castling field, an en passant field, and, when they are there,
/// a halfmove clock that fits 16 bits and a move number.
pub open spec fn fen_ok(text: Seq<char>) -> bool {
    let f = words_spec(text);
    &&& 4 <= f.len() <= 6
    &&& placement_spec(f[0]) is Some
    &&& side_spec(f[1]) is Some
    &&& castling_field_ok(f[2])
    &&& en_passant_spec(f[3]) is Some
    &&& f.len() >= 5 ==> parse_unsigned_spec(f[4], u16::MAX as int) is Some
    &&& f.len() >= 6 ==> parse_unsigned_spec(f[5], u32::MAX as int) is Some
}

/// The position a well-formed FEN line describes.
pub open spec fn fen_position(text: Seq<char>, p: Position) -> bool {
    let f = words_spec(text);
    &&& p.squares == placement_spec(f[0]).unwrap()
    &&& p.turn == side_spec(f[1]).unwrap()
    &&& forall|c: Color, s: CastleSide| #[trigger] p.castling.allows(c, s) == f[2].contains(castle_letter(c, s))
    &&& p.en_passant == match en_passant_spec(f[3]).unwrap() {
        Some(s) => Some(s as u8),
        None => None,
    }
    &&& p.halfmove == if f.len() >= 5 { parse_unsigned_spec(f[4], u16::MAX as int).unwrap() } else { 0 }
}

/// The piece a FEN letter stands for.
fn piece_of(c: char) -> (r: Option<Piece>)
    ensures
        r == piece_of_symbol(c),
        r matches Some(p) ==> p.valid(),
{
    let lower = if c == 'K' {
        'k'
    } else if c == 'Q' {
        'q'
    } else if c == 'R' {
        'r'
    } else if c == 'B' {
        'b'
    } else if c == 'N' {
        'n'
    } else if c == 'P' {
        'p'
    } else {
        c
    };
    let white = c == 'K' || c == 'Q' || c == 'R' || c == 'B' || c == 'N' || c == 'P';
    match PieceType::from_letter(lower) {
        Some(t) => {
            if white {
                Some(Piece::new(t, Color::White))
            } else if lower == c {
                Some(Piece::new(t, Color::Black))
            } else {
                None
            }
        },
        None => None,
    }
}

/// The squares of a placement field, or None when it is malformed.
fn read_placement(text: &str) -> (r: Option<Vec<Option<Piece>>>)
    ensures
        match r {
            Some(sq) => placement_spec(text@) == Some(sq@) && sq@.len() == 64 && forall|i: int|
                0 <= i < 64 ==> (#[trigger] sq@[i] matches Some(p) ==> p.valid()),
            None => placement_spec(text@) is None,
        },
{
    let n = text.unicode_len();
    let mut squares: Vec<Option<Piece>> = Vec::new();
    while squares.len() < 64
        invariant
            squares@.len() <= 64,
            forall|i: int| 0 <= i < squares@.len() ==> #[trigger] squares@[i] is None,
        decreases 64 - squares@.len(),
    {
        squares.push(None);
    }
    assert(squares@ =~= empty_squares());
    let mut rank: u8 = 7;
    let mut file: u8 = 0;
    let mut i: usize = 0;
    while i < n
        invariant
            n == text@.len(),
            i <= n,
            rank <= 7,
            file <= 8,
            squares@.len() == 64,
            forall|k: int| 0 <= k < 64 ==> (#[trigger] squares@[k] matches Some(p) ==> p.valid()),
            placement_spec(text@) == placement_from(text@, i as int, rank as int, file as int, squares@),
        decreases n - i,
    {
        let c = text.get_char(i);
        if c == '/' {
            if file == 8 && rank > 0 {
                rank = rank - 1;
                file = 0;
            } else {
                return None;
            }
        } else if '1' <= c && c <= '8' {
            let count = (c as u32 - 48) as u8;
            if file + count <= 8 {
                file = file + count;
            } else {
                return None;
            }
        } else {
            match piece_of(c) {
                Some(piece) => {
                    if file < 8 {
                        squares.set((rank * 8 + file) as usize, Some(piece));
                        file = file + 1;
                    } else {
                        return None;
                    }
                },
                None => {
                    return None;
                },
            }
        }
        i = i + 1;
    }
    if rank == 0 && file == 8 {
        Some(squares)
    } else {
        None
    }
}

/// Whether a castling field is "-" or letters out of "KQkq", and which castles it grants.
fn read_castling(text: &str) -> (r: Option<CastlingRights>)
    ensures
        r is Some == castling_field_ok(text@),
        r matches Some(rights) ==> forall|c: Color, s: CastleSide| #[trigger] rights.allows(c, s) == text@.contains(castle_letter(c, s)),
{
    let n = text.unicode_len();
    let dash = n == 1 && text.get_char(0) == '-';
    if dash {
        assert(text@ =~= seq!['-']);
        let rights = CastlingRights::none();
        proof {
            assert forall|c: Color, s: CastleSide| #[trigger] rights.allows(c, s) == text@.contains(castle_letter(c, s)) by {
                if text@.contains(castle_letter(c, s)) {
                    let k = choose|k: int| 0 <= k < text@.len() && text@[k] == castle_letter(c, s);
                    assert(k == 0);
                }
            }
        }
        return Some(rights);
    }
    if n == 0 {
        return None;
    }
    let mut wk = false;
    let mut wq = false;
    let mut bk = false;
    let mut bq = false;
    let mut i: usize = 0;
    while i < n
        invariant
            n == text@.len(),
            n > 0,
            !(n == 1 && text@[0] == '-'),
            i <= n,
            forall|j: int| 0 <= j < i ==> (#[trigger] text@[j] == 'K' || text@[j] == 'Q' || text@[j] == 'k' || text@[j] == 'q'),
            wk == text@.take(i as int).contains('K'),
            wq == text@.take(i as int).contains('Q'),
            bk == text@.take(i as int).contains('k'),
            bq == text@.take(i as int).contains('q'),
        decreases n - i,
    {
        let c = text.get_char(i);
        let ghost t0 = text@.take(i as int);
        let ghost t1 = text@.take(i + 1);
        proof {
            assert(t1 =~= t0.push(c));
            assert forall|x: char| t1.contains(x) == (t0.contains(x) || x == c) by {
                if t1.contains(x) {
                    let k = choose|k: int| 0 <= k < t1.len() && t1[k] == x;
                    if k < i {
                        assert(t0[k] == x);
                    }
                }
                if t0.contains(x) {
                    let k = choose|k: int| 0 <= k < t0.len() && t0[k] == x;
                    assert(t1[k] == x);
                }
                if x == c {
                    assert(t1[i as int] == x);
                }
            }
        }
        if c == 'K' {
            wk = true;
        } else if c == 'Q' {
            wq = true;
        } else if c == 'k' {
            bk = true;
        } else if c == 'q' {
            bq = true;
        } else {
            proof {
                if castling_field_ok(text@) {
                    assert(text@[i as int] == c);
                    assert(text@ != seq!['-']) by {
                        if text@ == seq!['-'] {
                            assert(text@.len() == 1 && text@[0] == '-');
                        }
                    }
                }
            }
            return None;
        }
        i = i + 1;
    }
    assert(text@.take(n as int) =~= text@);
    let rights = CastlingRights::from_flags(wk, wq, bk, bq);
    Some(rights)
}

impl Board {
    /// The position a FEN line describes, with no moves played; a description of what is
    /// wrong with it when it is malformed.
    pub fn from_fen(fen: &str) -> (r: Result<Board, String>)
        ensures
            r is Ok == fen_ok(fen@),
            r matches Ok(board) ==> board.wf() && board.history().len() == 0 && fen_position(fen@, board.position()),
    {
        let fields = split_words(fen);
        let ghost f = texts(fields@);
        if fields.len() < 4 || fields.len() > 6 {
            return Err("a FEN has four to six fields".to_owned());
        }
        proof {
            assert(f[0] == fields@[0]@);
            assert(f[1] == fields@[1]@);
            assert(f[2] == fields@[2]@);
            assert(f[3] == fields@[3]@);
        }
        let squares = match read_placement(fields[0].as_str()) {
            Some(squares) => squares,
            None => {
                return Err("the piece placement is malformed".to_owned());
            },
        };
        let side_text = fields[1].as_str();
        let turn = if side_text.unicode_len() == 1 && side_text.get_char(0) == 'w' {
            assert(side_text@ =~= seq!['w']);
            Color::White
        } else if side_text.unicode_len() == 1 && side_text.get_char(0) == 'b' {
            assert(side_text@ =~= seq!['b']);
            Color::Black
        } else {
            proof {
                if side_text@ == seq!['w'] || side_text@ == seq!['b'] {
                    assert(side_text@.len() == 1);
                }
            }
            return Err("the side to move is neither w nor b".to_owned());
        };
        let rights = match read_castling(fields[2].as_str()) {
            Some(rights) => rights,
            None => {
                return Err("the castling field is malformed".to_owned());
            },
        };
        let ep_text = fields[3].as_str();
        let en_passant: Option<u8> = if ep_text.unicode_len() == 1 && ep_text.get_char(0) == '-' {
            assert(ep_text@ =~= seq!['-']);
            None
        } else {
            proof {
                if ep_text@ == seq!['-'] {
                    assert(ep_text@.len() == 1 && ep_text@[0] == '-');
                }
            }
            match square_from_name(ep_text) {
                Some(square) => {
                    if (square >= 16 && square < 24) || (square >= 40 && square < 48) {
                        Some(square)
                    } else {
                        return Err("the en passant square is not on the third or sixth rank".to_owned());
                    }
                },
                None => {
                    return Err("the en passant square is malformed".to_owned());
                },
            }
        };
        let halfmove: u16 = if fields.len() >= 5 {
            proof {
                assert(f[4] == fields@[4]@);
            }
            match parse_unsigned(fields[4].as_str(), u16::MAX as u128) {
                Some(value) => value as u16,
                None => {
                    return Err("the halfmove clock is malformed".to_owned());
                },
            }
        } else {
            0
        };
        if fields.len() >= 6 {
            proof {
                assert(f[5] == fields@[5]@);
            }
            match parse_unsigned(fields[5].as_str(), u32::MAX as u128) {
                Some(_) => {},
                None => {
                    return Err("the move number is malformed".to_owned());
                },
            }
        }
        let mut board = Board::new();
        let mut index: u8 = 0;
        while index < 64
            invariant
                board.wf(),
                board.history().len() == 0,
                index <= 64,
                squares@.len() == 64,
                forall|k: int| 0 <= k < 64 ==> (#[trigger] squares@[k] matches Some(p) ==> p.valid()),
                forall|k: int| 0 <= k < index ==> #[trigger] board.position().squares[k] == squares@[k],
                forall|k: int| index <= k < 64 ==> #[trigger] board.position().squares[k] is None,
                board.position().squares.len() == 64,
            decreases 64 - index,
        {
            match squares[index as usize] {
                Some(piece) => {
                    board.add_piece(piece, index);
                },
                None => {},
            }
            index = index + 1;
        }
        assert(board.position().squares =~= squares@);
        board.set_state(turn, rights, en_passant, halfmove);
        Ok(board)
    }
}

/// One rank of a placement field from `file` on, `empties` empty squares not yet written.
pub open spec fn rank_text(sq: Seq<Option<Piece>>, rank: int, file: int, empties: int) -> Seq<char>
    decreases 8 - file,
{
    if file >= 8 {
        if empties > 0 { decimal_spec(empties as nat) } else { Seq::empty() }
    } else {
        match sq[rank * 8 + file] {
            None => rank_text(sq, rank, file + 1, empties + 1),
            Some(p) => (if empties > 0 { decimal_spec(empties as nat) } else { Seq::empty() }) + seq![
                symbol_of(p),
            ] + rank_text(sq, rank, file + 1, 0),
        }
    }
}

/// The ranks from `rank` down to the first, separated by '/'.
pub open spec fn ranks_text(sq: Seq<Option<Piece>>, rank: int) -> Seq<char>
    decreases rank,
{
    if rank <= 0 {
        rank_text(sq, 0, 0, 0)
    } else {
        rank_text(sq, rank, 0, 0) + seq!['/'] + ranks_text(sq, rank - 1)
    }
}

/// The castling field of a set of rights.
pub open spec fn castling_text(c: CastlingRights) -> Seq<char> {
    let t = (if c.allows(Color::White, CastleSide::King) { seq!['K'] } else { Seq::empty() }) + (if c.allows(
        Color::White,
        CastleSide::Queen,
    ) { seq!['Q'] } else { Seq::empty() }) + (if c.allows(Color::Black, CastleSide::King) { seq!['k'] } else { Seq::empty() }) + (
    if c.allows(Color::Black, CastleSide::Queen) { seq!['q'] } else { Seq::empty() });
    if t.len() == 0 { seq!['-'] } else { t }
}

/// The FEN line of a position `plies` moves into its game: the move number counts a
/// move of each side as one, from 1.
pub open spec fn fen_text(p: Position, plies: int) -> Seq<char> {
    ranks_text(p.squares, 7) + seq![' '] + (if p.turn == Color::White { seq!['w'] } else { seq!['b'] }) + seq![' ']
        + castling_text(p.castling) + seq![' '] + match p.en_passant {
        Some(s) => square_name_spec(s as int),
        None => seq!['-'],
    } + seq![' '] + decimal_spec(p.halfmove as nat) + seq![' '] + decimal_spec((1 + plies / 2) as nat)
}

/// Appends one rank of a placement field.
fn push_rank(text: &mut String, board: &Board, rank: u8)
    requires
        board.wf(),
        rank < 8,
    ensures
        final(text)@ == old(text)@ + rank_text(board.position().squares, rank as int, 0, 0),
{
    let ghost sq = board.position().squares;
    let mut file: u8 = 0;
    let mut empties: u8 = 0;
    while file < 8
        invariant
            board.wf(),
            sq == board.position().squares,
            rank < 8,
            file <= 8,
            empties <= file,
            old(text)@ + rank_text(sq, rank as int, 0, 0) == text@ + rank_text(sq, rank as int, file as int, empties as int),
        decreases 8 - file,
    {
        match board.piece_at(rank * 8 + file) {
            None => {
                empties = empties + 1;
            },
            Some(piece) => {
                let ghost before = text@;
                let ghost e = empties as int;
                if empties > 0 {
                    push_decimal(text, empties as u128);
                }
                push_char(text, piece.symbol());
                empties = 0;
                assert(before + rank_text(sq, rank as int, file as int, e) =~= text@ + rank_text(sq, rank as int, file + 1, 0));
            },
        }
        file = file + 1;
    }
    let ghost before = text@;
    if empties > 0 {
        push_decimal(text, empties as u128);
    }
    assert(before + rank_text(sq, rank as int, 8, empties as int) =~= text@);
}

/// Appends the placement field, the eighth rank first.
fn push_placement(text: &mut String, board: &Board)
    requires
        board.wf(),
    ensures
        final(text)@ == old(text)@ + ranks_text(board.position().squares, 7),
{
    let ghost p = board.position();
    let mut rank: u8 = 7;
    loop
        invariant_except_break
            board.wf(),
            p == board.position(),
            rank < 8,
            text@ + ranks_text(p.squares, rank as int) == old(text)@ + ranks_text(p.squares, 7),
        ensures
            text@ == old(text)@ + ranks_text(p.squares, 7),
        decreases rank,
    {
        let ghost before = text@;
        push_rank(text, board, rank);
        if rank == 0 {
            assert(text@ =~= before + ranks_text(p.squares, 0));
            break;
        }
        push_char(text, '/');
        assert(before + ranks_text(p.squares, rank as int) =~= text@ + ranks_text(p.squares, rank - 1));
        rank = rank - 1;
    }
}

/// Appends the castling field.
fn push_castling(text: &mut String, rights: CastlingRights)
    ensures
        final(text)@ == old(text)@ + castling_text(rights),
{
    let mut any = false;
    if rights.get(Color::White, CastleSide::King) {
        push_char(text, 'K');
        any = true;
    }
    if rights.get(Color::White, CastleSide::Queen) {
        push_char(text, 'Q');
        any = true;
    }
    if rights.get(Color::Black, CastleSide::King) {
        push_char(text, 'k');
        any = true;
    }
    if rights.get(Color::Black, CastleSide::Queen) {
        push_char(text, 'q');
        any = true;
    }
    if !any {
        push_char(text, '-');
    }
    assert(text@ =~= old(text)@ + castling_text(rights));
}

impl Board {
    /// The position as a FEN line; the move number counts from 1 at the start of the
    /// moves played on this board.
    pub fn to_fen(&self) -> (r: String)
        requires
            self.wf(),
        ensures
            r@ == fen_text(self.position(), self.history().len() as int),
    {
        let ghost p = self.position();
        let mut text = String::new();
        push_placement(&mut text, self);
        let ghost placed = text@;
        push_char(&mut text, ' ');
        match self.turn() {
            Color::White => push_char(&mut text, 'w'),
            Color::Black => push_char(&mut text, 'b'),
        }
        push_char(&mut text, ' ');
        push_castling(&mut text, self.castling_rights());
        push_char(&mut text, ' ');
        let ghost before_target = text@;
        match self.en_passant_target() {
            Some(square) => {
                proof {
                    self.lemma_wf_squares();
                }
                let name = square_name(square);
                push_char(&mut text, name.as_str().get_char(0));
                push_char(&mut text, name.as_str().get_char(1));
                assert(text@ =~= before_target + square_name_spec(square as int));
            },
            None => push_char(&mut text, '-'),
        }
        push_char(&mut text, ' ');
        push_decimal(&mut text, self.halfmove_clock() as u128);
        push_char(&mut text, ' ');
        let plies = self.history_len();
        push_decimal(&mut text, (1 + plies / 2) as u128);
        assert(text@ =~= fen_text(p, self.history().len() as int));
        text
    }
}

// -------------------- reading back what was written --------------------

/// The symbol of a piece reads back as that piece, and is neither a rank separator nor
/// a count of empty squares nor whitespace.
proof fn lemma_symbol_reads(p: Piece)
    requires
        p.valid(),
    ensures
        piece_of_symbol(symbol_of(p)) == Some(p),
        symbol_of(p) != '/',
        !('1' <= symbol_of(p) <= '8'),
        !is_blank(symbol_of(p)),
{
    assert(p == Piece::of(p.kind(), p.side()));
}

/// The squares of `sq` on the ranks above `rank` and on `rank` left of `file`, every
/// other square empty: what reading a placement has put down by then.
pub open spec fn partial(sq: Seq<Option<Piece>>, rank: int, file: int) -> Seq<Option<Piece>> {
    Seq::new(
        64,
        |k: int| if rank_spec(k) > rank || (rank_spec(k) == rank && file_spec(k) < file) { sq[k] } else { None },
    )
}

/// Reading the text of one rank from `file` on, with `empties` empty squares before it
/// not yet written, puts down the rest of the rank.
proof fn lemma_rank_reads(t: Seq<char>, i: int, sq: Seq<Option<Piece>>, rank: int, file: int, empties: int)
    requires
        valid_squares(sq),
        0 <= rank < 8,
        0 <= empties <= file <= 8,
        forall|k: int| file - empties <= k < file ==> #[trigger] sq[rank * 8 + k] is None,
        0 <= i,
        i + rank_text(sq, rank, file, empties).len() <= t.len(),
        t.subrange(i, i + rank_text(sq, rank, file, empties).len()) == rank_text(sq, rank, file, empties),
    ensures
        placement_from(t, i, rank, file - empties, partial(sq, rank, file - empties)) == placement_from(
            t,
            i + rank_text(sq, rank, file, empties).len(),
            rank,
            8,
            partial(sq, rank, 8),
        ),
    decreases 8 - file,
{
    let text = rank_text(sq, rank, file, empties);
    if file >= 8 {
        if empties > 0 {
            lemma_digit_char(empties);
            assert(text == seq![digit_char(empties)]);
            assert(t[i] == text[0]);
            assert(placement_from(t, i, rank, 8 - empties, partial(sq, rank, 8 - empties)) == placement_from(
                t,
                i + 1,
                rank,
                8,
                partial(sq, rank, 8 - empties),
            ));
            assert(partial(sq, rank, 8 - empties) =~= partial(sq, rank, 8)) by {
                assert forall|k: int| 0 <= k < 64 implies partial(sq, rank, 8 - empties)[k] == partial(sq, rank, 8)[k] by {
                    if rank_spec(k) == rank && 8 - empties <= file_spec(k) {
                        assert(k == rank * 8 + file_spec(k));
                    }
                }
            }
        }
    } else {
        match sq[rank * 8 + file] {
            None => {
                lemma_rank_reads(t, i, sq, rank, file + 1, empties + 1);
            },
            Some(p) => {
                let lead = if empties > 0 { decimal_spec(empties as nat) } else { Seq::<char>::empty() };
                let rest = rank_text(sq, rank, file + 1, 0);
                assert(text == lead + seq![symbol_of(p)] + rest);
                let j = i + lead.len();
                if empties > 0 {
                    lemma_digit_char(empties);
                    assert(lead == seq![digit_char(empties)]);
                    assert(t[i] == text[0]);
                    assert(placement_from(t, i, rank, file - empties, partial(sq, rank, file - empties)) == placement_from(
                        t,
                        i + 1,
                        rank,
                        file,
                        partial(sq, rank, file - empties),
                    ));
                    assert(partial(sq, rank, file - empties) =~= partial(sq, rank, file)) by {
                        assert forall|k: int| 0 <= k < 64 implies partial(sq, rank, file - empties)[k] == partial(sq, rank, file)[k] by {
                            if rank_spec(k) == rank && file - empties <= file_spec(k) < file {
                                assert(k == rank * 8 + file_spec(k));
                            }
                        }
                    }
                }
                assert(sq[rank * 8 + file] == Some(p));
                assert(p.valid());
                lemma_symbol_reads(p);
                assert(t[j] == text[lead.len() as int]);
                assert(placement_from(t, j, rank, file, partial(sq, rank, file)) == placement_from(
                    t,
                    j + 1,
                    rank,
                    file + 1,
                    partial(sq, rank, file).update(rank * 8 + file, Some(p)),
                ));
                assert(partial(sq, rank, file).update(rank * 8 + file, Some(p)) =~= partial(sq, rank, file + 1)) by {
                    assert forall|k: int| 0 <= k < 64 implies #[trigger] partial(sq, rank, file).update(rank * 8 + file, Some(p))[k]
                        == partial(sq, rank, file + 1)[k] by {
                        if rank_spec(k) == rank && file_spec(k) == file {
                            assert(k == rank * 8 + file);
                        }
                        if k == rank * 8 + file {
                            assert(rank_spec(k) == rank && file_spec(k) == file);
                        }
                    }
                }
                assert(t.subrange(j + 1, j + 1 + rest.len()) =~= rest) by {
                    assert forall|k: int| 0 <= k < rest.len() implies t.subrange(j + 1, j + 1 + rest.len())[k] == rest[k] by {
                        assert(t[j + 1 + k] == text[lead.len() + 1 + k]);
                    }
                }
                lemma_rank_reads(t, j + 1, sq, rank, file + 1, 0);
            },
        }
    }
}

/// Reading the ranks from `rank` down to the first puts down every square of them.
proof fn lemma_ranks_reads(t: Seq<char>, i: int, sq: Seq<Option<Piece>>, rank: int)
    requires
        valid_squares(sq),
        0 <= rank < 8,
        0 <= i,
        i + ranks_text(sq, rank).len() <= t.len(),
        t.subrange(i, i + ranks_text(sq, rank).len()) == ranks_text(sq, rank),
    ensures
        placement_from(t, i, rank, 0, partial(sq, rank, 0)) == placement_from(
            t,
            i + ranks_text(sq, rank).len(),
            0,
            8,
            partial(sq, 0, 8),
        ),
    decreases rank,
{
    let first = rank_text(sq, rank, 0, 0);
    let all = ranks_text(sq, rank);
    if rank == 0 {
        lemma_rank_reads(t, i, sq, 0, 0, 0);
    } else {
        let below = ranks_text(sq, rank - 1);
        assert(all == first + seq!['/'] + below);
        assert(t.subrange(i, i + first.len()) =~= first) by {
            assert forall|k: int| 0 <= k < first.len() implies t.subrange(i, i + first.len())[k] == first[k] by {
                assert(t[i + k] == all[k]);
            }
        }
        lemma_rank_reads(t, i, sq, rank, 0, 0);
        let j = i + first.len();
        assert(t[j] == all[first.len() as int]);
        assert(partial(sq, rank, 8) =~= partial(sq, rank - 1, 0));
        assert(t.subrange(j + 1, j + 1 + below.len()) =~= below) by {
            assert forall|k: int| 0 <= k < below.len() implies t.subrange(j + 1, j + 1 + below.len())[k] == below[k] by {
                assert(t[j + 1 + k] == all[first.len() + 1 + k]);
            }
        }
        lemma_ranks_reads(t, j + 1, sq, rank - 1);
    }
}

/// The placement written for a board of real pieces reads back as those squares.
pub proof fn lemma_placement_reads(sq: Seq<Option<Piece>>)
    requires
        valid_squares(sq),
    ensures
        placement_spec(ranks_text(sq, 7)) == Some(sq),
{
    let t = ranks_text(sq, 7);
    assert(t.subrange(0, t.len() as int) =~= t);
    lemma_ranks_reads(t, 0, sq, 7);
    assert(empty_squares() =~= partial(sq, 7, 0));
    assert(partial(sq, 0, 8) =~= sq);
}

/// No character of a rank's text is whitespace.
proof fn lemma_rank_text_unblank(sq: Seq<Option<Piece>>, rank: int, file: int, empties: int)
    requires
        valid_squares(sq),
        0 <= rank < 8,
        0 <= empties,
        0 <= file <= 8,
    ensures
        forall|k: int| 0 <= k < rank_text(sq, rank, file, empties).len() ==> !is_blank(#[trigger] rank_text(sq, rank, file, empties)[k]),
    decreases 8 - file,
{
    let text = rank_text(sq, rank, file, empties);
    lemma_decimal_digits(empties as nat);
    assert forall|k: int| 0 <= k < decimal_spec(empties as nat).len() implies !is_blank(#[trigger] decimal_spec(empties as nat)[k]) by {
        assert('0' <= decimal_spec(empties as nat)[k] <= '9');
    }
    if file >= 8 {
        if empties > 0 {
            assert(text == decimal_spec(empties as nat));
        } else {
            assert(text.len() == 0);
        }
    } else {
        match sq[rank * 8 + file] {
            None => {
                lemma_rank_text_unblank(sq, rank, file + 1, empties + 1);
                assert(text == rank_text(sq, rank, file + 1, empties + 1));
            },
            Some(p) => {
                let lead = if empties > 0 { decimal_spec(empties as nat) } else { Seq::<char>::empty() };
                let rest = rank_text(sq, rank, file + 1, 0);
                assert(text == lead + seq![symbol_of(p)] + rest);
                assert(p.valid());
                lemma_symbol_reads(p);
                lemma_rank_text_unblank(sq, rank, file + 1, 0);
                assert forall|k: int| 0 <= k < text.len() implies !is_blank(#[trigger] text[k]) by {
                    if k < lead.len() {
                        assert(text[k] == lead[k]);
                    } else if k == lead.len() {
                        assert(text[k] == symbol_of(p));
                    } else {
                        assert(text[k] == rest[k - lead.len() - 1]);
                    }
                }
            },
        }
    }
}

/// The placement written for a board is one word.
proof fn lemma_ranks_text_word(sq: Seq<Option<Piece>>, rank: int)
    requires
        valid_squares(sq),
        0 <= rank < 8,
    ensures
        forall|k: int| 0 <= k < ranks_text(sq, rank).len() ==> !is_blank(#[trigger] ranks_text(sq, rank)[k]),
        rank > 0 ==> ranks_text(sq, rank).len() > 0,
    decreases rank,
{
    let first = rank_text(sq, rank, 0, 0);
    lemma_rank_text_unblank(sq, rank, 0, 0);
    if rank > 0 {
        let below = ranks_text(sq, rank - 1);
        let all = ranks_text(sq, rank);
        assert(all == first + seq!['/'] + below);
        lemma_ranks_text_word(sq, rank - 1);
        assert forall|k: int| 0 <= k < all.len() implies !is_blank(#[trigger] all[k]) by {
            if k < first.len() {
                assert(all[k] == first[k]);
            } else if k == first.len() {
                assert(all[k] == '/');
            } else {
                assert(all[k] == below[k - first.len() - 1]);
            }
        }
    }
}

/// A character is in a sequence joined from two exactly when it is in one of them.
proof fn lemma_concat_contains(a: Seq<char>, b: Seq<char>, x: char)
    ensures
        (a + b).contains(x) <==> (a.contains(x) || b.contains(x)),
{
    if (a + b).contains(x) {
        let i = choose|i: int| 0 <= i < (a + b).len() && (a + b)[i] == x;
        if i < a.len() {
            assert(a[i] == x);
        } else {
            assert(b[i - a.len()] == x);
        }
    }
    if a.contains(x) {
        let i = choose|i: int| 0 <= i < a.len() && a[i] == x;
        assert((a + b)[i] == x);
    }
    if b.contains(x) {
        let i = choose|i: int| 0 <= i < b.len() && b[i] == x;
        assert((a + b)[a.len() + i] == x);
    }
}

/// The castling field written for a set of rights is a well-formed field that grants
/// exactly those rights.
proof fn lemma_castling_reads(c: CastlingRights)
    ensures
        is_word(castling_text(c)),
        castling_field_ok(castling_text(c)),
        forall|col: Color, side: CastleSide| #[trigger] c.allows(col, side) == castling_text(c).contains(castle_letter(col, side)),
{
    let a = if c.allows(Color::White, CastleSide::King) { seq!['K'] } else { Seq::<char>::empty() };
    let b = if c.allows(Color::White, CastleSide::Queen) { seq!['Q'] } else { Seq::<char>::empty() };
    let d = if c.allows(Color::Black, CastleSide::King) { seq!['k'] } else { Seq::<char>::empty() };
    let e = if c.allows(Color::Black, CastleSide::Queen) { seq!['q'] } else { Seq::<char>::empty() };
    let t = a + b + d + e;
    assert(castling_text(c) == if t.len() == 0 { seq!['-'] } else { t });
    assert forall|k: int| 0 <= k < t.len() implies (#[trigger] t[k] == 'K' || t[k] == 'Q' || t[k] == 'k' || t[k] == 'q') by {
        if k < a.len() {
            assert(t[k] == a[k]);
        } else if k < a.len() + b.len() {
            assert(t[k] == b[k - a.len()]);
        } else if k < a.len() + b.len() + d.len() {
            assert(t[k] == d[k - a.len() - b.len()]);
        } else {
            assert(t[k] == e[k - a.len() - b.len() - d.len()]);
        }
    }
    assert forall|col: Color, side: CastleSide| #[trigger] c.allows(col, side) == castling_text(c).contains(castle_letter(col, side)) by {
        let x = castle_letter(col, side);
        lemma_concat_contains(a + b + d, e, x);
        lemma_concat_contains(a + b, d, x);
        lemma_concat_contains(a, b, x);
        if a.contains(x) {
            let i = choose|i: int| 0 <= i < a.len() && a[i] == x;
        }
        if b.contains(x) {
            let i = choose|i: int| 0 <= i < b.len() && b[i] == x;
        }
        if d.contains(x) {
            let i = choose|i: int| 0 <= i < d.len() && d[i] == x;
        }
        if e.contains(x) {
            let i = choose|i: int| 0 <= i < e.len() && e[i] == x;
        }
        if c.allows(col, side) {
            match (col, side) {
                (Color::White, CastleSide::King) => assert(a[0] == x),
                (Color::White, CastleSide::Queen) => assert(b[0] == x),
                (Color::Black, CastleSide::King) => assert(d[0] == x),
                (Color::Black, CastleSide::Queen) => assert(e[0] == x),
            }
        }
        if t.len() == 0 {
            if seq!['-'].contains(x) {
                let i = choose|i: int| 0 <= i < 1 && seq!['-'][i] == x;
            }
        }
    }
}

/// The name of a square reads back as that square.
proof fn lemma_square_name_reads(s: int)
    requires
        0 <= s < 64,
    ensures
        is_word(square_name_spec(s)),
        square_from_name_spec(square_name_spec(s)) == Some(s),
{
    assert(s == (s / 8) * 8 + s % 8);
}

/// The field an en passant target is written as.
pub open spec fn en_passant_text(target: Option<u8>) -> Seq<char> {
    match target {
        Some(s) => square_name_spec(s as int),
        None => seq!['-'],
    }
}

/// The six fields of the FEN line of a position.
pub open spec fn fen_fields(p: Position, plies: int) -> Seq<Seq<char>> {
    seq![
        ranks_text(p.squares, 7),
        if p.turn == Color::White { seq!['w'] } else { seq!['b'] },
        castling_text(p.castling),
        en_passant_text(p.en_passant),
        decimal_spec(p.halfmove as nat),
        decimal_spec((1 + plies / 2) as nat),
    ]
}

/// An en passant field written for a target on the third or sixth rank reads back as it.
proof fn lemma_en_passant_reads(target: Option<u8>)
    requires
        target matches Some(t) ==> (rank_spec(t as int) == 2 || rank_spec(t as int) == 5),
    ensures
        is_word(en_passant_text(target)),
        en_passant_spec(en_passant_text(target)) is Some,
        target == match en_passant_spec(en_passant_text(target)).unwrap() {
            Some(s) => Some(s as u8),
            None => None,
        },
{
    match target {
        Some(t) => {
            lemma_square_name_reads(t as int);
            assert(square_name_spec(t as int) != seq!['-']) by {
                assert(square_name_spec(t as int).len() == 2);
            }
        },
        None => {},
    }
}

/// Six words written with single spaces between them.
proof fn lemma_six_spaced(a: Seq<char>, b: Seq<char>, c: Seq<char>, d: Seq<char>, e: Seq<char>, f: Seq<char>)
    ensures
        spaced(seq![a, b, c, d, e, f]) == a + seq![' '] + b + seq![' '] + c + seq![' '] + d + seq![' '] + e + seq![' '] + f,
{
    let fields = seq![a, b, c, d, e, f];
    let s5 = seq![f];
    let s4 = seq![e, f];
    let s3 = seq![d, e, f];
    let s2 = seq![c, d, e, f];
    let s1 = seq![b, c, d, e, f];
    assert(s4.drop_first() =~= s5);
    assert(s3.drop_first() =~= s4);
    assert(s2.drop_first() =~= s3);
    assert(s1.drop_first() =~= s2);
    assert(fields.drop_first() =~= s1);
    assert(spaced(s5) == f);
    assert(spaced(s4) == e + seq![' '] + spaced(s5));
    assert(spaced(s3) == d + seq![' '] + spaced(s4));
    assert(spaced(s2) == c + seq![' '] + spaced(s3));
    assert(spaced(s1) == b + seq![' '] + spaced(s2));
    assert(spaced(fields) == a + seq![' '] + spaced(s1));
    assert(spaced(fields) =~= a + seq![' '] + b + seq![' '] + c + seq![' '] + d + seq![' '] + e + seq![' '] + f);
}

/// The FEN line of a position is its six fields, one space between each two.
proof fn lemma_fen_text_spaced(p: Position, plies: int)
    ensures
        fen_text(p, plies) == spaced(fen_fields(p, plies)),
{
    let fields = fen_fields(p, plies);
    lemma_six_spaced(fields[0], fields[1], fields[2], fields[3], fields[4], fields[5]);
    assert(fields =~= seq![fields[0], fields[1], fields[2], fields[3], fields[4], fields[5]]);
}

/// Each of the six fields of a position's FEN line is a word.
proof fn lemma_fen_fields_are_words(p: Position, plies: int)
    requires
        valid_squares(p.squares),
        p.en_passant matches Some(t) ==> (rank_spec(t as int) == 2 || rank_spec(t as int) == 5),
        0 <= plies,
    ensures
        forall|k: int| 0 <= k < fen_fields(p, plies).len() ==> is_word(#[trigger] fen_fields(p, plies)[k]),
{
    let fields = fen_fields(p, plies);
    lemma_ranks_text_word(p.squares, 7);
    lemma_castling_reads(p.castling);
    lemma_en_passant_reads(p.en_passant);
    lemma_decimal_digits(p.halfmove as nat);
    lemma_decimal_digits((1 + plies / 2) as nat);
    assert forall|k: int| 0 <= k < fields.len() implies is_word(#[trigger] fields[k]) by {
        if k >= 4 {
            assert forall|m: int| 0 <= m < fields[k].len() implies !is_blank(#[trigger] fields[k][m]) by {
                assert('0' <= fields[k][m] <= '9');
            }
        }
    }
}

/// The FEN line of a position is read as its six fields.
proof fn lemma_fen_fields(p: Position, plies: int)
    requires
        valid_squares(p.squares),
        p.en_passant matches Some(t) ==> (rank_spec(t as int) == 2 || rank_spec(t as int) == 5),
        0 <= plies,
    ensures
        words_spec(fen_text(p, plies)) == fen_fields(p, plies),
{
    let fields = fen_fields(p, plies);
    let text = fen_text(p, plies);
    lemma_fen_text_spaced(p, plies);
    lemma_fen_fields_are_words(p, plies);
    assert(text.subrange(0, text.len() as int) =~= text);
    lemma_spaced_words(text, 0, Seq::empty(), fields);
    assert(Seq::<Seq<char>>::empty() + fields =~= fields);
}

/// A position written out as FEN reads back as that very position: the line is well
/// formed, and it describes the squares, the side to move, the castling rights, the en
/// passant target and the halfmove clock it was written from. An en passant target
/// sits on the third or sixth rank, where a double push leaves it.
pub proof fn law_fen_reads_back(p: Position, plies: int)
    requires
        valid_squares(p.squares),
        p.en_passant matches Some(t) ==> (rank_spec(t as int) == 2 || rank_spec(t as int) == 5),
        0 <= plies,
        1 + plies / 2 <= u32::MAX,
    ensures
        fen_ok(fen_text(p, plies)),
        fen_position(fen_text(p, plies), p),
{
    let f = fen_fields(p, plies);
    lemma_fen_fields(p, plies);
    lemma_placement_reads(p.squares);
    lemma_castling_reads(p.castling);
    lemma_en_passant_reads(p.en_passant);
    lemma_parse_decimal(p.halfmove as nat, u16::MAX as int);
    lemma_parse_decimal((1 + plies / 2) as nat, u32::MAX as int);
    match p.turn {
        Color::White => assert(f[1] =~= seq!['w']),
        Color::Black => {
            assert(f[1] =~= seq!['b']);
            assert(f[1][0] != seq!['w'][0]);
        },
    }
}

/// A FEN line describes one position at most.
pub proof fn lemma_fen_describes_one_position(text: Seq<char>, p: Position, q: Position)
    requires
        fen_position(text, p),
        fen_position(text, q),
    ensures
        p == q,
{
    assert forall|c: Color, side: CastleSide| p.castling.allows(c, side) == q.castling.allows(c, side) by {
        assert(p.castling.allows(c, side) == words_spec(text)[2].contains(castle_letter(c, side)));
        assert(q.castling.allows(c, side) == words_spec(text)[2].contains(castle_letter(c, side)));
    }
    lemma_rights_ext(p.castling, q.castling);
}

/// A board written out as FEN and read back holds the position it was written from: the
/// line reads without an error, and whatever board reading it gives has that position.
pub proof fn law_board_fen_round_trip(board: &Board, read: &Board)
    requires
        board.wf(),
        board.position().en_passant matches Some(t) ==> (rank_spec(t as int) == 2 || rank_spec(t as int) == 5),
        1 + board.history().len() / 2 <= u32::MAX,
        fen_position(fen_text(board.position(), board.history().len() as int), read.position()),
    ensures
        fen_ok(fen_text(board.position(), board.history().len() as int)),
        read.position() == board.position(),
{
    board.lemma_wf_squares();
    law_fen_reads_back(board.position(), board.history().len() as int);
    lemma_fen_describes_one_position(
        fen_text(board.position(), board.history().len() as int),
        read.position(),
        board.position(),
    );
}

} // verus!
