// The board: where the pieces stand, whose turn it is, and how a move is played
// and taken back again. Move generation lives in `movegen`.
use vstd::prelude::*;
use crate::board::castling::{
    CastleSide, CastlingRights, rook_castle_square, rook_start_square, rook_castle_spec,
    rook_start_spec, king_start_spec, king_castle_spec, lemma_rights_ext,
};
use crate::board::chess_move::{Move, MoveRecord, irreversible};
use crate::board::hashing::{
    capturable_target, combine, en_passant_key, lemma_squares_hash_update, lemma_xor_castling,
    lemma_xor_en_passant, lemma_xor_side, lemma_xor_square, position_hash, side_key,
    square_key, squares_hash, pawn_on,
};
use crate::board::piece::{Color, Piece, PieceType, opponent_of, promotion_rank_of, group_piece};
use crate::board::rules::{
    Position, apply_squares, en_passant_after, fits, halfmove_after, move_in_range, played,
    record_for, rights_after, undone, unapply_squares, valid_en_passant, valid_squares,
};
use crate::board::square::{
    en_passant_captured_spec, en_passant_captured_square, file_of, file_spec, offset, offset_spec,
    rank_of, rank_spec,
};
use crate::board::zobrist::{Zobrist, castling_hash_spec, zobrist_key};

verus! {

broadcast use group_piece;

#[derive(Clone)]
pub struct Board {
    turn: Color,
    squares: Vec<Option<Piece>>,
    /// Every move played so far, together with what is needed to take it back.
    history: Vec<MoveRecord>,
    /// The position key before each move of the history - the repetition scan reads
    /// nothing but these.
    keys: Vec<u64>,
    castling_rights: CastlingRights,
    /// The square a pawn skipped over with its double push, i.e. the square an enemy
    /// pawn may capture onto right now.
    en_passant_target: Option<u8>,
    /// Moves since the last capture or pawn move.
    halfmove_clock: u16,
    /// The zobrist hash of the current position, kept up to date move by move.
    hash: u64,
    /// The en passant key that is currently mixed into `hash`, 0 when there is none.
    en_passant_hash: u64,
    zobrist: Zobrist,
}

/// A record whose move can be taken back onto the board.
pub open spec fn valid_record(record: MoveRecord) -> bool {
    &&& record.chess_move.piece.valid()
    &&& (record.chess_move.captured matches Some(p) ==> p.valid())
    &&& move_in_range(record.chess_move)
    &&& valid_en_passant(record.en_passant_before)
}

/// A move that can be played onto a board of valid squares.
pub open spec fn playable(m: Move) -> bool {
    &&& m.piece.valid()
    &&& (m.captured matches Some(p) ==> p.valid())
    &&& move_in_range(m)
}

impl Board {
    /// The position on the board.
    pub closed spec fn position(&self) -> Position {
        Position {
            squares: self.squares@,
            turn: self.turn,
            castling: self.castling_rights,
            en_passant: self.en_passant_target,
            halfmove: self.halfmove_clock,
        }
    }

    /// Every move played so far, oldest first.
    pub closed spec fn history(&self) -> Seq<MoveRecord> {
        self.history@
    }

    /// The position key before each move of the history.
    pub closed spec fn keys(&self) -> Seq<u64> {
        self.keys@
    }

    /// The hash the board holds for its position.
    pub closed spec fn stored_hash(&self) -> u64 {
        self.hash
    }

    /// The squares, the history and the hash parts hang together, except perhaps for the
    /// en passant key, which is only settled once a move is finished.
    closed spec fn consistent(&self) -> bool {
        &&& valid_squares(self.squares@)
        &&& valid_en_passant(self.en_passant_target)
        &&& self.history@.len() == self.keys@.len()
        &&& forall|i: int| 0 <= i < self.history@.len() ==> valid_record(#[trigger] self.history@[i])
        &&& self.zobrist.wf()
        &&& self.hash == combine(
            squares_hash(self.squares@, 64),
            castling_hash_spec(self.castling_rights),
            side_key(self.turn),
            self.en_passant_hash,
        )
    }

    /// A board in a state any method may be called on; its hash is the position's hash.
    pub closed spec fn wf(&self) -> bool {
        &&& self.consistent()
        &&& self.en_passant_hash == en_passant_key(self.position())
    }

    /// The stored hash of a well-formed board is the hash of its position.
    pub proof fn lemma_hash_is_position_hash(&self)
        requires
            self.wf(),
        ensures
            self.stored_hash() == position_hash(self.position()),
    {
    }

    /// A well-formed board holds 64 squares of real pieces and a sensible en passant target.
    pub proof fn lemma_wf_squares(&self)
        requires
            self.wf(),
        ensures
            valid_squares(self.position().squares),
            valid_en_passant(self.position().en_passant),
            self.history().len() == self.keys().len(),
            forall|i: int| 0 <= i < self.history().len() ==> valid_record(#[trigger] self.history()[i]),
    {
    }

    // -------------------- setting up --------------------

    /// An empty board, white to move, every castle still open.
    pub fn new() -> (r: Board)
        ensures
            r.wf(),
            r.position().squares == Seq::new(64, |i: int| None::<Piece>),
            r.position().turn == Color::White,
            forall|c: Color, s: CastleSide| #[trigger] r.position().castling.allows(c, s),
            r.position().en_passant.is_none(),
            r.position().halfmove == 0,
            r.history().len() == 0,
    {
        let zobrist = Zobrist::build();
        let castling_rights = CastlingRights::all();
        let mut squares: Vec<Option<Piece>> = Vec::new();
        let mut index: usize = 0;
        while index < 64
            invariant
                index <= 64,
                squares@.len() == index,
                forall|i: int| 0 <= i < index ==> #[trigger] squares@[i] is None,
            decreases 64 - index,
        {
            squares.push(None);
            index += 1;
        }
        let hash = zobrist.castling(castling_rights);
        proof {
            assert(squares_hash(squares@, 64) == 0) by {
                lemma_empty_hash(squares@, 64);
            }
            lemma_xor_side(0, hash, 0, 0, 0);
            assert(combine(0, hash, 0, 0) == hash) by (bit_vector);
        }
        let board = Board {
            turn: Color::White,
            squares,
            history: Vec::new(),
            keys: Vec::new(),
            castling_rights,
            en_passant_target: None,
            halfmove_clock: 0,
            hash,
            en_passant_hash: 0,
            zobrist,
        };
        assert(board.position().squares =~= Seq::new(64, |i: int| None::<Piece>));
        board
    }

    pub fn add_piece(&mut self, piece: Piece, square: u8)
        requires
            old(self).wf(),
            piece.valid(),
            square < 64,
        ensures
            final(self).wf(),
            final(self).position() == (Position {
                squares: old(self).position().squares.update(square as int, Some(piece)),
                ..old(self).position()
            }),
            final(self).history() == old(self).history(),
            final(self).keys() == old(self).keys(),
    {
        self.set_square(square, Some(piece));
        let target = self.en_passant_target;
        self.set_en_passant_target(target);
    }

    /// Sets the side to move, the castling rights, the en passant target and the
    /// halfmove clock, leaving the squares and the history as they are.
    pub fn set_state(&mut self, turn: Color, castling: CastlingRights, en_passant: Option<u8>, halfmove: u16)
        requires
            old(self).wf(),
            valid_en_passant(en_passant),
        ensures
            final(self).wf(),
            final(self).position() == (Position { squares: old(self).position().squares, turn, castling, en_passant, halfmove }),
            final(self).history() == old(self).history(),
            final(self).keys() == old(self).keys(),
    {
        let flip = match (self.turn, turn) {
            (Color::White, Color::Black) => true,
            (Color::Black, Color::White) => true,
            _ => false,
        };
        if flip {
            self.flip_turn();
        }
        self.set_castling_rights(castling);
        self.halfmove_clock = halfmove;
        self.set_en_passant_target(en_passant);
    }

    // -------------------- reading the position --------------------

    pub fn turn(&self) -> (r: Color)
        ensures
            r == self.position().turn,
    {
        self.turn
    }

    /// The zobrist hash of the current position.
    pub fn hash(&self) -> (r: u64)
        ensures
            r == self.stored_hash(),
    {
        self.hash
    }

    pub fn castling_rights(&self) -> (r: CastlingRights)
        ensures
            r == self.position().castling,
    {
        self.castling_rights
    }

    pub fn en_passant_target(&self) -> (r: Option<u8>)
        ensures
            r == self.position().en_passant,
    {
        self.en_passant_target
    }

    /// Moves since the last capture or pawn move.
    pub fn halfmove_clock(&self) -> (r: u16)
        ensures
            r == self.position().halfmove,
    {
        self.halfmove_clock
    }

    /// The piece standing on a square, if any.
    pub fn piece_at(&self, square: u8) -> (r: Option<Piece>)
        requires
            self.wf(),
            square < 64,
        ensures
            r == self.position().squares[square as int],
            r matches Some(p) ==> p.valid(),
    {
        self.squares[square as usize]
    }

    /// A copy of the 64 squares.
    pub fn squares(&self) -> (r: Vec<Option<Piece>>)
        requires
            self.wf(),
        ensures
            r@ == self.position().squares,
            valid_squares(r@),
    {
        self.squares.clone()
    }

    /// A copy of the position keys before each move.
    pub fn keys_snapshot(&self) -> (r: Vec<u64>)
        ensures
            r@ == self.keys(),
    {
        self.keys.clone()
    }

    /// How many moves have been played on this board.
    pub fn history_len(&self) -> (r: usize)
        ensures
            r == self.history().len(),
    {
        self.history.len()
    }

    /// The moves played so far, oldest first.
    pub fn moves_played(&self) -> (r: Vec<Move>)
        ensures
            r@.len() == self.history().len(),
            forall|i: int| 0 <= i < r@.len() ==> #[trigger] r@[i] == self.history()[i].chess_move,
    {
        let mut moves: Vec<Move> = Vec::new();
        let mut index: usize = 0;
        while index < self.history.len()
            invariant
                index <= self.history@.len(),
                moves@.len() == index,
                forall|i: int| 0 <= i < index ==> #[trigger] moves@[i] == self.history@[i].chess_move,
            decreases self.history@.len() - index,
        {
            moves.push(self.history[index].chess_move);
            index += 1;
        }
        moves
    }

    // -------------------- keeping the hash in sync --------------------

    /// Every write to a square goes through here, so the hash stays in sync - xor is
    /// its own inverse, so taking off and putting on are one operation.
    fn set_square(&mut self, square: u8, piece: Option<Piece>)
        requires
            old(self).consistent(),
            square < 64,
            piece matches Some(p) ==> p.valid(),
        ensures
            final(self).consistent(),
            final(self).squares@ == old(self).squares@.update(square as int, piece),
            final(self).turn == old(self).turn,
            final(self).castling_rights == old(self).castling_rights,
            final(self).en_passant_target == old(self).en_passant_target,
            final(self).en_passant_hash == old(self).en_passant_hash,
            final(self).halfmove_clock == old(self).halfmove_clock,
            final(self).history@ == old(self).history@,
            final(self).keys@ == old(self).keys@,
    {
        let previous = self.squares[square as usize];
        let mut change: u64 = 0;
        match previous {
            Some(p) => {
                change = self.zobrist.piece(square, p);
            },
            None => {},
        }
        match piece {
            Some(p) => {
                change = change ^ self.zobrist.piece(square, p);
            },
            None => {},
        }
        proof {
            let a = square_key(previous, square as int);
            let b = square_key(piece, square as int);
            assert(change == a ^ b) by {
                lemma_xor_side(0, 0, 0, 0, a);
                lemma_xor_side(0, 0, 0, 0, b);
                assert(0u64 ^ 0u64 == 0u64) by (bit_vector);
                assert(a ^ 0u64 == a) by (bit_vector);
            }
            lemma_squares_hash_update(self.squares@, square as int, piece, 64);
            lemma_xor_square(
                squares_hash(self.squares@, 64),
                castling_hash_spec(self.castling_rights),
                side_key(self.turn),
                self.en_passant_hash,
                a,
                b,
            );
        }
        self.hash = self.hash ^ change;
        self.squares.set(square as usize, piece);
    }

    fn flip_turn(&mut self)
        requires
            old(self).consistent(),
        ensures
            final(self).consistent(),
            final(self).squares@ == old(self).squares@,
            final(self).turn == opponent_of(old(self).turn),
            final(self).castling_rights == old(self).castling_rights,
            final(self).en_passant_target == old(self).en_passant_target,
            final(self).en_passant_hash == old(self).en_passant_hash,
            final(self).halfmove_clock == old(self).halfmove_clock,
            final(self).history@ == old(self).history@,
            final(self).keys@ == old(self).keys@,
    {
        let key = self.zobrist.side_to_move();
        proof {
            lemma_xor_side(
                squares_hash(self.squares@, 64),
                castling_hash_spec(self.castling_rights),
                side_key(self.turn),
                self.en_passant_hash,
                key,
            );
        }
        self.turn = self.turn.opponent();
        self.hash = self.hash ^ key;
    }

    /// Swaps the castling keys of the old rights for those of the new ones.
    fn set_castling_rights(&mut self, castling_rights: CastlingRights)
        requires
            old(self).consistent(),
        ensures
            final(self).consistent(),
            final(self).squares@ == old(self).squares@,
            final(self).turn == old(self).turn,
            final(self).castling_rights == castling_rights,
            final(self).en_passant_target == old(self).en_passant_target,
            final(self).en_passant_hash == old(self).en_passant_hash,
            final(self).halfmove_clock == old(self).halfmove_clock,
            final(self).history@ == old(self).history@,
            final(self).keys@ == old(self).keys@,
    {
        let before = self.zobrist.castling(self.castling_rights);
        let after = self.zobrist.castling(castling_rights);
        proof {
            lemma_xor_castling(
                squares_hash(self.squares@, 64),
                before,
                side_key(self.turn),
                self.en_passant_hash,
                after,
            );
        }
        self.hash = self.hash ^ (before ^ after);
        self.castling_rights = castling_rights;
    }

    /// Only the file of the target is hashed, and only while the side to move can really
    /// capture onto it - call this once the position and the side to move are final.
    fn set_en_passant_target(&mut self, target: Option<u8>)
        requires
            old(self).consistent(),
            valid_en_passant(target),
        ensures
            final(self).wf(),
            final(self).squares@ == old(self).squares@,
            final(self).turn == old(self).turn,
            final(self).castling_rights == old(self).castling_rights,
            final(self).en_passant_target == target,
            final(self).halfmove_clock == old(self).halfmove_clock,
            final(self).history@ == old(self).history@,
            final(self).keys@ == old(self).keys@,
    {
        self.en_passant_target = target;
        let key = match self.capturable_en_passant_target() {
            Some(square) => self.zobrist.en_passant_file(file_of(square)),
            None => 0,
        };
        proof {
            lemma_xor_en_passant(
                squares_hash(self.squares@, 64),
                castling_hash_spec(self.castling_rights),
                side_key(self.turn),
                self.en_passant_hash,
                key,
            );
        }
        self.hash = self.hash ^ (self.en_passant_hash ^ key);
        self.en_passant_hash = key;
    }

    /// The en passant target, but only while the side to move can really take it.
    pub fn capturable_en_passant_target(&self) -> (r: Option<u8>)
        requires
            valid_squares(self.position().squares),
            valid_en_passant(self.position().en_passant),
        ensures
            r == capturable_target(self.position()),
    {
        let target = match self.en_passant_target {
            Some(target) => target,
            None => return None,
        };
        let captured_square = en_passant_captured_square(target, self.turn);
        let pawn = Piece::new(PieceType::Pawn, self.turn);
        let left = offset(captured_square, (-1, 0));
        let right = offset(captured_square, (1, 0));
        let left_pawn = match left {
            Some(square) => self.squares[square as usize] == Some(pawn),
            None => false,
        };
        let right_pawn = match right {
            Some(square) => self.squares[square as usize] == Some(pawn),
            None => false,
        };
        if left_pawn || right_pawn {
            Some(target)
        } else {
            None
        }
    }
}

/// An empty board hashes to nothing.
proof fn lemma_empty_hash(sq: Seq<Option<Piece>>, n: int)
    requires
        0 <= n <= sq.len(),
        forall|i: int| 0 <= i < n ==> #[trigger] sq[i] is None,
    ensures
        squares_hash(sq, n) == 0,
    decreases n,
{
    if n > 0 {
        lemma_empty_hash(sq, n - 1);
        assert(0u64 ^ 0u64 == 0u64) by (bit_vector);
    }
}

impl Board {
    // -------------------- playing moves --------------------

    /// Plays a move and pushes it onto the history, so undo_move can take it back. The
    /// move is taken as given: whatever it says about castling, promotion and en passant
    /// is what happens.
    pub fn make_move(&mut self, chess_move: &Move)
        requires
            old(self).wf(),
            playable(*chess_move),
        ensures
            final(self).wf(),
            played(old(self).position(), *chess_move, final(self).position()),
            final(self).history() == old(self).history().push(record_for(old(self).position(), *chess_move)),
            final(self).keys() == old(self).keys().push(old(self).stored_hash()),
    {
        let record = MoveRecord {
            chess_move: *chess_move,
            castling_rights_before: self.castling_rights,
            en_passant_before: self.en_passant_target,
            halfmove_clock_before: self.halfmove_clock,
        };
        let key = self.hash;
        let ghost before = self.position();

        let from = chess_move.from;
        let to = chess_move.to;
        let piece = chess_move.piece;
        let color = piece.color();

        // the captured pawn does not stand on `to`, so it has to be taken off separately
        if chess_move.en_passant {
            self.set_square(en_passant_captured_square(to, color), None);
        }

        // the pawn only reaches the board as its promoted piece, the Move keeps the pawn
        let arriving = match chess_move.promotion {
            Some(piece_type) => Piece::new(piece_type, color),
            None => piece,
        };
        self.set_square(to, Some(arriving));
        self.set_square(from, None);

        match chess_move.castle {
            Some(side) => {
                let rook_from = rook_start_square(color, side);
                let rook_to = rook_castle_square(color, side);
                let rook = self.squares[rook_from as usize];
                self.set_square(rook_to, rook);
                self.set_square(rook_from, None);
            },
            None => {},
        }
        assert(self.squares@ == apply_squares(before.squares, *chess_move));

        let mut castling_rights = self.castling_rights;
        if piece.is(PieceType::King) {
            castling_rights.clear_color(color);
        }
        // covers both a rook leaving its start square and a rook being captured on it
        castling_rights.clear_on_square(from);
        castling_rights.clear_on_square(to);
        self.set_castling_rights(castling_rights);

        self.halfmove_clock = if chess_move.is_irreversible() {
            0
        } else {
            self.halfmove_clock.saturating_add(1)
        };

        self.history.push(record);
        self.keys.push(key);
        self.flip_turn();

        // last, because whether the target is capturable depends on the finished position
        // and on the side that is to move now; only a double push opens a target
        let target = if piece.is(PieceType::Pawn) && (to as i16 - from as i16 == 16 || from as i16 - to as i16 == 16) {
            Some((from + to) / 2)
        } else {
            None
        };
        self.set_en_passant_target(target);
        assert(self.history@ =~= old(self).history@.push(record_for(before, *chess_move)));
    }

    /// Undoes the last move: puts the piece back, restores what it took, moves a castled
    /// rook back, and restores the castling rights, the en passant target and the clock.
    pub fn undo_move(&mut self) -> (r: Option<Move>)
        requires
            old(self).wf(),
        ensures
            final(self).wf(),
            old(self).history().len() == 0 ==> r is None && final(self).position() == old(self).position()
                && final(self).history() == old(self).history() && final(self).keys() == old(self).keys(),
            old(self).history().len() > 0 ==> {
                let record = old(self).history().last();
                &&& r == Some(record.chess_move)
                &&& final(self).position() == undone(old(self).position(), record)
                &&& final(self).history() == old(self).history().drop_last()
                &&& final(self).keys() == old(self).keys().drop_last()
            },
    {
        if self.history.len() == 0 {
            return None;
        }
        let ghost before = self.position();
        let record = self.history.pop().unwrap();
        let _ = self.keys.pop();
        assert(valid_record(record));
        let chess_move = record.chess_move;
        let color = chess_move.piece.color();

        self.set_square(chess_move.from, Some(chess_move.piece));
        if chess_move.en_passant {
            // the captured pawn never stood on `to`
            let captured_square = en_passant_captured_square(chess_move.to, color);
            self.set_square(chess_move.to, None);
            self.set_square(captured_square, chess_move.captured);
        } else {
            self.set_square(chess_move.to, chess_move.captured);
        }

        match chess_move.castle {
            Some(side) => {
                let rook_from = rook_start_square(color, side);
                let rook_to = rook_castle_square(color, side);
                let rook = self.squares[rook_to as usize];
                self.set_square(rook_from, rook);
                self.set_square(rook_to, None);
            },
            None => {},
        }
        assert(self.squares@ == unapply_squares(before.squares, chess_move));

        self.set_castling_rights(record.castling_rights_before);
        self.halfmove_clock = record.halfmove_clock_before;
        self.flip_turn();
        // the target is restored last, once the position and the side to move are back
        self.set_en_passant_target(record.en_passant_before);

        Some(chess_move)
    }
}

/// The back rank from the a file to the h file.
pub open spec fn back_rank_type(file: int) -> PieceType {
    if file == 0 || file == 7 {
        PieceType::Rook
    } else if file == 1 || file == 6 {
        PieceType::Knight
    } else if file == 2 || file == 5 {
        PieceType::Bishop
    } else if file == 3 {
        PieceType::Queen
    } else {
        PieceType::King
    }
}

/// What stands on a square of the usual starting position.
/// Rights that leave every castle open.
pub open spec fn grants_all(c: CastlingRights) -> bool {
    forall|col: Color, side: CastleSide| #[trigger] c.allows(col, side)
}

/// The usual starting position: every castle open, white to move.
pub open spec fn start_position_spec() -> Position {
    Position {
        squares: Seq::new(64, |i: int| start_piece(i)),
        turn: Color::White,
        castling: choose|c: CastlingRights| #[trigger] grants_all(c),
        en_passant: None,
        halfmove: 0,
    }
}

pub open spec fn start_piece(square: int) -> Option<Piece> {
    if 0 <= square < 8 {
        Some(Piece::of(back_rank_type(square), Color::White))
    } else if 8 <= square < 16 {
        Some(Piece::of(PieceType::Pawn, Color::White))
    } else if 48 <= square < 56 {
        Some(Piece::of(PieceType::Pawn, Color::Black))
    } else if 56 <= square < 64 {
        Some(Piece::of(back_rank_type(square - 56), Color::Black))
    } else {
        None
    }
}

/// Whether a square belongs to the four ranks the starting position fills.
pub open spec fn start_rank_square(square: int) -> bool {
    (0 <= square < 16) || (48 <= square < 64)
}

/// The move going from one square to another: a king moving two files is a castle, a
/// pawn moving diagonally onto an empty square an en passant capture, and a pawn
/// reaching the last rank a promotion (to a queen unless something else is asked for).
pub open spec fn describe(sq: Seq<Option<Piece>>, from: int, to: int, promotion: Option<PieceType>) -> Move {
    let piece = sq[from].unwrap();
    let color = piece.side();
    if piece.kind() == PieceType::King && (to - from == 2 || from - to == 2) {
        Move {
            from: from as u8,
            to: to as u8,
            piece,
            captured: None,
            castle: Some(if to > from { CastleSide::King } else { CastleSide::Queen }),
            promotion: None,
            en_passant: false,
        }
    } else if piece.kind() == PieceType::Pawn && file_spec(from) != file_spec(to) && sq[to] is None {
        Move {
            from: from as u8,
            to: to as u8,
            piece,
            captured: sq[en_passant_captured_spec(to, color)],
            castle: None,
            promotion: None,
            en_passant: true,
        }
    } else if piece.kind() == PieceType::Pawn && rank_spec(to) == promotion_rank_of(color) {
        Move {
            from: from as u8,
            to: to as u8,
            piece,
            captured: sq[to],
            castle: None,
            promotion: Some(
                match promotion {
                    Some(t) => t,
                    None => PieceType::Queen,
                },
            ),
            en_passant: false,
        }
    } else {
        Move { from: from as u8, to: to as u8, piece, captured: sq[to], castle: None, promotion: None, en_passant: false }
    }
}

/// The squares `describe` can work with: a piece on `from`, and for a pawn's diagonal
/// step onto an empty square, a piece to take en passant.
pub open spec fn describable(sq: Seq<Option<Piece>>, from: int, to: int) -> bool {
    &&& 0 <= from < 64
    &&& 0 <= to < 64
    &&& sq[from] is Some
    &&& (sq[from].unwrap().kind() == PieceType::Pawn && file_spec(from) != file_spec(to) && sq[to] is None) ==> {
        &&& 8 <= to < 56
        &&& sq[en_passant_captured_spec(to, sq[from].unwrap().side())] is Some
    }
}

impl Board {
    /// The usual starting position.
    pub fn set_start_position(&mut self)
        requires
            old(self).wf(),
        ensures
            final(self).wf(),
            forall|i: int| 0 <= i < 64 ==> #[trigger] final(self).position().squares[i] == (if start_rank_square(i) {
                start_piece(i)
            } else {
                old(self).position().squares[i]
            }),
            final(self).position().turn == old(self).position().turn,
            forall|c: Color, s: CastleSide| #[trigger] final(self).position().castling.allows(c, s),
            final(self).position().en_passant.is_none(),
            final(self).position().halfmove == old(self).position().halfmove,
            final(self).history() == old(self).history(),
            final(self).keys() == old(self).keys(),
    {
        let ghost initial = self.squares@;
        let mut file: u8 = 0;
        while file < 8
            invariant
                self.consistent(),
                file <= 8,
                self.squares@.len() == 64,
                self.turn == old(self).turn,
                self.halfmove_clock == old(self).halfmove_clock,
                self.history@ == old(self).history@,
                self.keys@ == old(self).keys@,
                self.en_passant_target == old(self).en_passant_target,
                initial == old(self).squares@,
                forall|i: int| 0 <= i < 64 ==> #[trigger] self.squares@[i] == (if start_rank_square(i) && (i % 8) < file {
                    start_piece(i)
                } else {
                    initial[i]
                }),
            decreases 8 - file,
        {
            let piece_type = match file {
                0 | 7 => PieceType::Rook,
                1 | 6 => PieceType::Knight,
                2 | 5 => PieceType::Bishop,
                3 => PieceType::Queen,
                _ => PieceType::King,
            };
            assert(piece_type == back_rank_type(file as int));
            self.set_square(file, Some(Piece::new(piece_type, Color::White)));
            self.set_square(56 + file, Some(Piece::new(piece_type, Color::Black)));
            self.set_square(8 + file, Some(Piece::new(PieceType::Pawn, Color::White)));
            self.set_square(48 + file, Some(Piece::new(PieceType::Pawn, Color::Black)));
            file = file + 1;
        }
        self.set_castling_rights(CastlingRights::all());
        self.set_en_passant_target(None);
    }

    /// A new board holding the usual starting position.
    pub fn start_position() -> (r: Board)
        ensures
            r.wf(),
            forall|i: int| 0 <= i < 64 ==> #[trigger] r.position().squares[i] == start_piece(i),
            r.position().turn == Color::White,
            forall|c: Color, s: CastleSide| #[trigger] r.position().castling.allows(c, s),
            r.position().en_passant.is_none(),
            r.position().halfmove == 0,
            r.history().len() == 0,
            r.position() == start_position_spec(),
    {
        let mut board = Board::new();
        board.set_start_position();
        proof {
            assert(grants_all(board.position().castling));
            let all = choose|c: CastlingRights| #[trigger] grants_all(c);
            lemma_rights_ext(all, board.position().castling);
            assert(board.position().squares =~= Seq::new(64, |i: int| start_piece(i)));
        }
        board
    }

    /// Works out what kind of move going from `from` to `to` is.
    fn describe_move(&self, from: u8, to: u8, promotion: Option<PieceType>) -> (r: Move)
        requires
            self.wf(),
            describable(self.position().squares, from as int, to as int),
        ensures
            r == describe(self.position().squares, from as int, to as int, promotion),
            playable(r),
    {
        let piece = self.squares[from as usize].unwrap();
        let color = piece.color();

        if piece.is(PieceType::King) && (to as i16 - from as i16 == 2 || from as i16 - to as i16 == 2) {
            let side = if to > from { CastleSide::King } else { CastleSide::Queen };
            return Move::castling(piece, from, to, side);
        }

        if piece.is(PieceType::Pawn) {
            if file_of(from) != file_of(to) && self.squares[to as usize].is_none() {
                let captured = self.squares[en_passant_captured_square(to, color) as usize].unwrap();
                return Move::en_passant_capture(from, to, piece, captured);
            }

            if rank_of(to) == color.promotion_rank() {
                let promote_to = match promotion {
                    Some(piece_type) => piece_type,
                    None => PieceType::Queen,
                };
                return Move::promoting(from, to, piece, self.squares[to as usize], promote_to);
            }
        }

        Move::normal(from, to, piece, self.squares[to as usize])
    }

    /// The usual starting position; another name for `set_start_position`.
    pub fn create_basic_layout(&mut self)
        requires
            old(self).wf(),
        ensures
            final(self).wf(),
            forall|i: int| 0 <= i < 64 ==> #[trigger] final(self).position().squares[i] == (if start_rank_square(i) {
                start_piece(i)
            } else {
                old(self).position().squares[i]
            }),
            final(self).position().turn == old(self).position().turn,
            forall|c: Color, s: CastleSide| #[trigger] final(self).position().castling.allows(c, s),
            final(self).position().en_passant.is_none(),
    {
        self.set_start_position();
    }

    /// The piece on a square; another name for `piece_at`.
    pub fn get_piece(&self, position: u8) -> (r: Option<Piece>)
        requires
            self.wf(),
            position < 64,
        ensures
            r == self.position().squares[position as int],
    {
        self.piece_at(position)
    }

    /// Plays the move going from one square to another; another name for
    /// `make_move_from_squares`.
    pub fn create_move(&mut self, from: u8, to: u8, promotion: Option<PieceType>)
        requires
            old(self).wf(),
            describable(old(self).position().squares, from as int, to as int),
        ensures
            final(self).wf(),
            played(
                old(self).position(),
                describe(old(self).position().squares, from as int, to as int, promotion),
                final(self).position(),
            ),
            final(self).history() == old(self).history().push(
                record_for(old(self).position(), describe(old(self).position().squares, from as int, to as int, promotion)),
            ),
    {
        self.make_move_from_squares(from, to, promotion);
    }

    /// Whether the move going from one square to another can be worked out: a piece stands
    /// on `from`, and a pawn stepping diagonally onto an empty square has a pawn to take
    /// en passant.
    pub fn can_describe(&self, from: u8, to: u8) -> (r: bool)
        requires
            self.wf(),
        ensures
            r == describable(self.position().squares, from as int, to as int),
    {
        if from >= 64 || to >= 64 {
            return false;
        }
        let piece = match self.squares[from as usize] {
            Some(piece) => piece,
            None => {
                return false;
            },
        };
        proof {
            self.lemma_wf_squares();
        }
        if piece.is(PieceType::Pawn) && file_of(from) != file_of(to) && self.squares[to as usize].is_none() {
            if to < 8 || to >= 56 {
                return false;
            }
            return self.squares[en_passant_captured_square(to, piece.color()) as usize].is_some();
        }
        true
    }

    /// Plays the move going from one square to another, for callers that only have the
    /// two squares; `promotion` is the piece a promoting pawn turns into.
    pub fn make_move_from_squares(&mut self, from: u8, to: u8, promotion: Option<PieceType>)
        requires
            old(self).wf(),
            describable(old(self).position().squares, from as int, to as int),
        ensures
            final(self).wf(),
            played(
                old(self).position(),
                describe(old(self).position().squares, from as int, to as int, promotion),
                final(self).position(),
            ),
            final(self).history() == old(self).history().push(
                record_for(old(self).position(), describe(old(self).position().squares, from as int, to as int, promotion)),
            ),
            final(self).keys() == old(self).keys().push(old(self).stored_hash()),
    {
        let chess_move = self.describe_move(from, to, promotion);
        self.make_move(&chess_move);
    }
}

/// Two well-formed boards that hold the same position hold the same hash, however
/// each of them got there: the hash is kept up to date move by move and still always
/// agrees with the position.
pub proof fn law_same_position_same_hash(a: &Board, b: &Board)
    requires
        a.wf(),
        b.wf(),
        a.position() == b.position(),
    ensures
        a.stored_hash() == b.stored_hash(),
{
    a.lemma_hash_is_position_hash();
    b.lemma_hash_is_position_hash();
}

/// Playing a move that fits the board and then taking it back gives back the position
/// and the hash the board had before the move.
pub proof fn law_play_then_undo(before: &Board, m: Move, played_board: &Board, undone_board: &Board)
    requires
        before.wf(),
        played_board.wf(),
        undone_board.wf(),
        fits(before.position().squares, m),
        played(before.position(), m, played_board.position()),
        played_board.history() == before.history().push(record_for(before.position(), m)),
        undone_board.position() == undone(played_board.position(), played_board.history().last()),
    ensures
        undone_board.position() == before.position(),
        undone_board.stored_hash() == before.stored_hash(),
{
    before.lemma_wf_squares();
    crate::board::rules::law_undo_restores(before.position(), m, played_board.position());
    law_same_position_same_hash(undone_board, before);
}

/// What a square shows in the picture of the board: the piece's letter, or a dot.
pub open spec fn square_symbol(sq: Seq<Option<Piece>>, square: int) -> char {
    match sq[square] {
        Some(piece) => crate::board::piece::symbol_of(piece),
        None => '.',
    }
}

/// The board as text: one line per rank, the eighth first, each square's symbol followed
/// by a space.
pub open spec fn picture(sq: Seq<Option<Piece>>) -> Seq<char> {
    Seq::new(
        136,
        |i: int|
            {
                let rank = 7 - i / 17;
                let column = i % 17;
                if column == 16 {
                    '\n'
                } else if column % 2 == 1 {
                    ' '
                } else {
                    square_symbol(sq, rank * 8 + column / 2)
                }
            },
    )
}

impl Board {
    /// The board as text, ranks from the eighth down, for looking at while debugging.
    pub fn display(&self) -> (r: String)
        requires
            self.wf(),
        ensures
            r@ == picture(self.position().squares),
    {
        proof {
            self.lemma_wf_squares();
        }
        let ghost sq = self.position().squares;
        let mut text = String::new();
        let mut row: usize = 0;
        while row < 8
            invariant
                sq == self.position().squares,
                crate::board::rules::valid_squares(sq),
                row <= 8,
                text@ == picture(sq).take(row as int * 17),
            decreases 8 - row,
        {
            let rank = 7 - row;
            let mut file: usize = 0;
            while file < 8
                invariant
                    sq == self.position().squares,
                    crate::board::rules::valid_squares(sq),
                    row < 8,
                    rank == 7 - row,
                    file <= 8,
                    text@ == picture(sq).take(row as int * 17 + file as int * 2),
                decreases 8 - file,
            {
                let square = rank * 8 + file;
                let symbol = match self.squares[square] {
                    Some(piece) => piece.symbol(),
                    None => '.',
                };
                crate::text::push_char(&mut text, symbol);
                crate::text::push_char(&mut text, ' ');
                proof {
                    let at = row as int * 17 + file as int * 2;
                    assert(picture(sq)[at] == symbol);
                    assert(picture(sq)[at + 1] == ' ');
                    assert(text@ =~= picture(sq).take(at + 2));
                }
                file = file + 1;
            }
            crate::text::push_char(&mut text, '\n');
            proof {
                let at = row as int * 17 + 16;
                assert(picture(sq)[at] == '\n');
                assert(text@ =~= picture(sq).take(at + 1));
            }
            row = row + 1;
        }
        proof {
            assert(picture(sq).take(136) =~= picture(sq));
        }
        text
    }
}

} // verus!
