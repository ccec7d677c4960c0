// What the position says about the game: check, mate, stalemate, repetitions and
// whether anyone still has the material to mate with.
use vstd::prelude::*;
use crate::board::board::{Board, valid_record};
use crate::board::chess_move::{Move, MoveRecord, irreversible};
use crate::board::hashing::position_hash;
use crate::board::movegen::{generated, legal_move, lemma_ordered_no_duplicates};
use crate::board::piece::{Color, Piece, PieceType, group_piece, opponent_of, phase_weight_of};
use crate::board::rules::{Position, attacked, in_check, is_attacked_on, is_in_check_on, valid_squares};

verus! {

broadcast use group_piece;

/// How many squares among the first `n` hold this piece.
pub open spec fn count_of(sq: Seq<Option<Piece>>, piece: Piece, n: int) -> int
    decreases n,
{
    if n <= 0 {
        0
    } else {
        count_of(sq, piece, n - 1) + if sq[n - 1] == Some(piece) { 1int } else { 0int }
    }
}

/// How many pieces of this type and color stand on the board.
pub open spec fn piece_count(sq: Seq<Option<Piece>>, piece_type: PieceType, color: Color) -> int {
    count_of(sq, Piece::of(piece_type, color), 64)
}

/// The phase weights of everything standing among the first `n` squares, added up.
pub open spec fn phase_sum(sq: Seq<Option<Piece>>, n: int) -> int
    decreases n,
{
    if n <= 0 {
        0
    } else {
        phase_sum(sq, n - 1) + match sq[n - 1] {
            Some(p) => phase_weight_of(p.kind()),
            None => 0,
        }
    }
}

/// How often the current position has occurred, walking the history back from entry
/// `n - 1` and stopping after the first irreversible move.
pub open spec fn repetitions_spec(history: Seq<MoveRecord>, keys: Seq<u64>, current: u64, n: int) -> int
    decreases n,
{
    if n <= 0 {
        1
    } else {
        (if keys[n - 1] == current { 1int } else { 0int }) + if irreversible(history[n - 1].chess_move) {
            1
        } else {
            repetitions_spec(history, keys, current, n - 1)
        }
    }
}

/// The current position counts once by itself, and once more for every earlier position
/// with the same key, back to and including the one before the last irreversible move:
/// with `since` the index of that move (or 0 when there is none), the count is one plus
/// the number of keys in `keys[since..n]` equal to `current`. With no history at all, a
/// position has occurred exactly once.
pub proof fn law_repetitions_count_the_current_position(
    history: Seq<MoveRecord>,
    keys: Seq<u64>,
    current: u64,
    n: int,
    since: int,
)
    requires
        0 <= since <= n <= history.len(),
        keys.len() == history.len(),
        n > 0 ==> since < n,
        forall|j: int| since < j < n ==> !irreversible(#[trigger] history[j].chess_move),
        since == 0 || irreversible(history[since].chess_move),
    ensures
        repetitions_spec(history, keys, current, n) == 1 + keys.subrange(since, n).filter(|k: u64| k == current).len(),
        repetitions_spec(history, keys, current, 0) == 1,
    decreases n,
{
    if n == 0 {
        assert(keys.subrange(since, n) =~= Seq::<u64>::empty());
        reveal(Seq::filter);
    } else if n - 1 == since {
        assert(keys.subrange(since, n) =~= Seq::<u64>::empty().push(keys[since]));
        Seq::<u64>::empty().lemma_filter_push(keys[since], |k: u64| k == current);
        reveal(Seq::filter);
        assert(Seq::<u64>::empty().filter(|k: u64| k == current) =~= Seq::<u64>::empty());
        if since == 0 {
            assert(repetitions_spec(history, keys, current, 0) == 1);
        } else {
            assert(irreversible(history[n - 1].chess_move));
        }
    } else {
        law_repetitions_count_the_current_position(history, keys, current, n - 1, since);
        assert(!irreversible(history[n - 1].chess_move));
        let before = keys.subrange(since, n - 1);
        assert(keys.subrange(since, n) =~= before.push(keys[n - 1]));
        before.lemma_filter_push(keys[n - 1], |k: u64| k == current);
    }
}

/// With no pawns, rooks or queens left, whether anyone can still mate comes down to the
/// minor pieces: one minor each at most cannot do it, and neither can two knights against
/// a bare king. Both counts are [white, black].
pub open spec fn insufficient_minors_spec(bishops: (int, int), knights: (int, int)) -> bool {
    let white_minors = bishops.0 + knights.0;
    let black_minors = bishops.1 + knights.1;
    (white_minors <= 1 && black_minors <= 1) || (white_minors == 0 && bishops.1 == 0 && knights.1 == 2) || (
    black_minors == 0 && bishops.0 == 0 && knights.0 == 2)
}

/// Neither side has enough material left to mate with.
pub open spec fn insufficient_material_spec(sq: Seq<Option<Piece>>) -> bool {
    &&& piece_count(sq, PieceType::Pawn, Color::White) == 0
    &&& piece_count(sq, PieceType::Pawn, Color::Black) == 0
    &&& piece_count(sq, PieceType::Rook, Color::White) == 0
    &&& piece_count(sq, PieceType::Rook, Color::Black) == 0
    &&& piece_count(sq, PieceType::Queen, Color::White) == 0
    &&& piece_count(sq, PieceType::Queen, Color::Black) == 0
    &&& insufficient_minors_spec(
        (piece_count(sq, PieceType::Bishop, Color::White), piece_count(sq, PieceType::Bishop, Color::Black)),
        (piece_count(sq, PieceType::Knight, Color::White), piece_count(sq, PieceType::Knight, Color::Black)),
    )
}

/// Material that can still mate is never a draw by insufficient material: any pawn,
/// rook or queen; a bishop with a second minor piece on the same side; or three minor
/// pieces on one side.
pub proof fn law_mating_material_is_never_a_draw(sq: Seq<Option<Piece>>, color: Color)
    ensures
        piece_count(sq, PieceType::Pawn, color) > 0 ==> !insufficient_material_spec(sq),
        piece_count(sq, PieceType::Rook, color) > 0 ==> !insufficient_material_spec(sq),
        piece_count(sq, PieceType::Queen, color) > 0 ==> !insufficient_material_spec(sq),
        piece_count(sq, PieceType::Bishop, color) >= 1 && piece_count(sq, PieceType::Bishop, color) + piece_count(
            sq,
            PieceType::Knight,
            color,
        ) >= 2 ==> !insufficient_material_spec(sq),
        piece_count(sq, PieceType::Bishop, color) + piece_count(sq, PieceType::Knight, color) >= 3
            ==> !insufficient_material_spec(sq),
{
}

/// The side to move has no legal move at all.
pub open spec fn no_legal_moves(p: Position) -> bool {
    forall|m: Move| !legal_move(p, p.turn, m)
}

pub fn insufficient_minors(bishops: [usize; 2], knights: [usize; 2]) -> (r: bool)
    requires
        bishops[0] <= 64 && bishops[1] <= 64 && knights[0] <= 64 && knights[1] <= 64,
    ensures
        r == insufficient_minors_spec(
            (bishops[0] as int, bishops[1] as int),
            (knights[0] as int, knights[1] as int),
        ),
{
    let white_minors = bishops[0] + knights[0];
    let black_minors = bishops[1] + knights[1];
    if white_minors <= 1 && black_minors <= 1 {
        return true;
    }
    (white_minors == 0 && bishops[1] == 0 && knights[1] == 2) || (black_minors == 0 && bishops[0] == 0 && knights[0] == 2)
}

proof fn lemma_count_bound(sq: Seq<Option<Piece>>, piece: Piece, n: int)
    requires
        0 <= n,
    ensures
        0 <= count_of(sq, piece, n) <= n,
    decreases n,
{
    if n > 0 {
        lemma_count_bound(sq, piece, n - 1);
    }
}

proof fn lemma_phase_bound(sq: Seq<Option<Piece>>, n: int)
    requires
        0 <= n,
    ensures
        0 <= phase_sum(sq, n) <= 4 * n,
    decreases n,
{
    if n > 0 {
        lemma_phase_bound(sq, n - 1);
    }
}

impl Board {
    /// Every move the side to move may play.
    pub fn legal_moves(&self) -> (r: Vec<Move>)
        requires
            self.wf(),
        ensures
            generated(self.position(), self.position().turn, false, r@),
            r@.no_duplicates(),
    {
        let r = self.generate_moves(self.turn(), false);
        proof {
            lemma_ordered_no_duplicates(r@);
        }
        r
    }

    /// Only the moves that take something, for the quiescence search.
    pub fn legal_captures(&self) -> (r: Vec<Move>)
        requires
            self.wf(),
        ensures
            generated(self.position(), self.position().turn, true, r@),
            r@.no_duplicates(),
    {
        let r = self.generate_moves(self.turn(), true);
        proof {
            lemma_ordered_no_duplicates(r@);
        }
        r
    }

    /// Every legal move of one side.
    pub fn legal_moves_for(&self, color: Color) -> (r: Vec<Move>)
        requires
            self.wf(),
        ensures
            generated(self.position(), color, false, r@),
    {
        self.generate_moves(color, false)
    }

    /// Every legal capture of one side.
    pub fn legal_captures_for(&self, color: Color) -> (r: Vec<Move>)
        requires
            self.wf(),
        ensures
            generated(self.position(), color, true, r@),
    {
        self.generate_moves(color, true)
    }

    /// Every legal move of one side; another name for `legal_moves_for`.
    pub fn get_legal_moves(&self, color: Color) -> (r: Vec<Move>)
        requires
            self.wf(),
        ensures
            generated(self.position(), color, false, r@),
    {
        self.legal_moves_for(color)
    }

    /// The winning side once the game is mate; another name for `winner`.
    pub fn get_winner(&self) -> (r: Color)
        requires
            self.wf(),
        ensures
            r == (if in_check(self.position().squares, Color::White) { Color::Black } else { Color::White }),
    {
        self.winner()
    }

    /// Is the given square attacked by a piece of `color`.
    pub fn is_attacked(&self, square: u8, color: Color) -> (r: bool)
        requires
            self.wf(),
            square < 64,
        ensures
            r == attacked(self.position().squares, square as int, color),
    {
        proof {
            self.lemma_wf_squares();
        }
        let sq = self.squares();
        is_attacked_on(&sq, square, color)
    }

    /// Is the king of the given side in check.
    pub fn is_check(&self, color: Color) -> (r: bool)
        requires
            self.wf(),
        ensures
            r == in_check(self.position().squares, color),
    {
        proof {
            self.lemma_wf_squares();
        }
        let sq = self.squares();
        is_in_check_on(&sq, color)
    }

    /// The side to move is in check and has no legal moves left.
    pub fn is_checkmate(&self) -> (r: bool)
        requires
            self.wf(),
        ensures
            r == (in_check(self.position().squares, self.position().turn) && no_legal_moves(self.position())),
    {
        let check = self.is_check(self.turn());
        let moves = self.legal_moves();
        proof {
            if moves@.len() > 0 {
                assert(moves@.contains(moves@[0]));
                assert(legal_move(self.position(), self.position().turn, moves@[0]));
            } else {
                assert forall|m: Move| !legal_move(self.position(), self.position().turn, m) by {
                    if legal_move(self.position(), self.position().turn, m) {
                        assert(moves@.contains(m));
                    }
                }
            }
        }
        check && moves.len() == 0
    }

    /// The side to move is not in check but has no legal moves left.
    pub fn is_stalemate(&self) -> (r: bool)
        requires
            self.wf(),
        ensures
            r == (!in_check(self.position().squares, self.position().turn) && no_legal_moves(self.position())),
    {
        let check = self.is_check(self.turn());
        let moves = self.legal_moves();
        proof {
            if moves@.len() > 0 {
                assert(moves@.contains(moves@[0]));
                assert(legal_move(self.position(), self.position().turn, moves@[0]));
            } else {
                assert forall|m: Move| !legal_move(self.position(), self.position().turn, m) by {
                    if legal_move(self.position(), self.position().turn, m) {
                        assert(moves@.contains(m));
                    }
                }
            }
        }
        !check && moves.len() == 0
    }

    /// The winning side, only meaningful right after is_checkmate returned true: black
    /// when white is in check, white otherwise.
    pub fn winner(&self) -> (r: Color)
        requires
            self.wf(),
        ensures
            r == (if in_check(self.position().squares, Color::White) { Color::Black } else { Color::White }),
    {
        if self.is_check(Color::White) {
            Color::Black
        } else {
            Color::White
        }
    }

    /// Where the king of that side stands - the lowest square holding one, None only on a
    /// hand built board.
    pub fn king_square(&self, color: Color) -> (r: Option<u8>)
        requires
            self.wf(),
        ensures
            r matches Some(k) ==> k < 64 && self.position().squares[k as int] == Some(Piece::of(PieceType::King, color))
                && forall|j: int| 0 <= j < k ==> #[trigger] self.position().squares[j] != Some(Piece::of(PieceType::King, color)),
            r is None ==> forall|j: int| 0 <= j < 64 ==> #[trigger] self.position().squares[j] != Some(Piece::of(PieceType::King, color)),
    {
        let king = Piece::new(PieceType::King, color);
        let mut square: u8 = 0;
        while square < 64
            invariant
                self.wf(),
                square <= 64,
                king == Piece::of(PieceType::King, color),
                forall|j: int| 0 <= j < square ==> #[trigger] self.position().squares[j] != Some(king),
            decreases 64 - square,
        {
            if self.piece_at(square) == Some(king) {
                return Some(square);
            }
            square = square + 1;
        }
        None
    }

    /// Every square holding a piece of that type and color, lowest first.
    pub fn squares_with(&self, piece_type: PieceType, color: Color) -> (r: Vec<u8>)
        requires
            self.wf(),
        ensures
            forall|i: int| 0 <= i < r@.len() ==> #[trigger] r@[i] < 64,
            forall|s: int| 0 <= s < 64 ==> (r@.contains(s as u8) <==> #[trigger] self.position().squares[s] == Some(Piece::of(piece_type, color))),
            r@.len() == piece_count(self.position().squares, piece_type, color),
            forall|i: int, j: int| 0 <= i < j < r@.len() ==> r@[i] < r@[j],
    {
        let piece = Piece::new(piece_type, color);
        let mut found: Vec<u8> = Vec::new();
        let mut square: u8 = 0;
        while square < 64
            invariant
                self.wf(),
                square <= 64,
                piece == Piece::of(piece_type, color),
                forall|i: int| 0 <= i < found@.len() ==> #[trigger] found@[i] < square,
                forall|s: int| 0 <= s < square ==> (found@.contains(s as u8) <==> #[trigger] self.position().squares[s] == Some(piece)),
                found@.len() == count_of(self.position().squares, piece, square as int),
                forall|i: int, j: int| 0 <= i < j < found@.len() ==> found@[i] < found@[j],
            decreases 64 - square,
        {
            let ghost before = found@;
            if self.piece_at(square) == Some(piece) {
                found.push(square);
            }
            proof {
                assert forall|s: int| 0 <= s < square + 1 implies (found@.contains(s as u8) <==> #[trigger] self.position().squares[s] == Some(piece)) by {
                    if s < square {
                        if found@.contains(s as u8) {
                            let i = choose|i: int| 0 <= i < found@.len() && found@[i] == s as u8;
                            if i >= before.len() {
                                assert(found@[i] == square);
                            } else {
                                assert(before[i] == s as u8);
                                assert(before.contains(s as u8));
                            }
                        }
                        if before.contains(s as u8) {
                            let i = choose|i: int| 0 <= i < before.len() && before[i] == s as u8;
                            assert(found@[i] == s as u8);
                        }
                    } else {
                        if self.position().squares[s] == Some(piece) {
                            assert(found@[found@.len() - 1] == square);
                        }
                        if found@.contains(s as u8) {
                            let i = choose|i: int| 0 <= i < found@.len() && found@[i] == s as u8;
                            if i < before.len() {
                                assert(before[i] < square);
                            }
                        }
                    }
                }
            }
            square = square + 1;
        }
        found
    }

    /// How many pieces of that type and color stand on the board.
    pub fn count_pieces(&self, piece_type: PieceType, color: Color) -> (r: usize)
        requires
            self.wf(),
        ensures
            r == piece_count(self.position().squares, piece_type, color),
            r <= 64,
    {
        let piece = Piece::new(piece_type, color);
        let mut count: usize = 0;
        let mut square: u8 = 0;
        while square < 64
            invariant
                self.wf(),
                square <= 64,
                piece == Piece::of(piece_type, color),
                count == count_of(self.position().squares, piece, square as int),
                count <= square,
            decreases 64 - square,
        {
            if self.piece_at(square) == Some(piece) {
                count = count + 1;
            }
            square = square + 1;
        }
        count
    }

    /// The phase weights of everything standing, added up - a full board is 24, and a
    /// promotion can push it past that.
    pub fn phase(&self) -> (r: i32)
        requires
            self.wf(),
        ensures
            r == phase_sum(self.position().squares, 64),
    {
        let mut phase: i32 = 0;
        let mut square: u8 = 0;
        while square < 64
            invariant
                self.wf(),
                square <= 64,
                phase == phase_sum(self.position().squares, square as int),
            decreases 64 - square,
        {
            proof {
                lemma_phase_bound(self.position().squares, square as int);
            }
            match self.piece_at(square) {
                Some(piece) => {
                    phase = phase + piece.piece_type().phase_weight();
                },
                None => {},
            }
            square = square + 1;
        }
        phase
    }

    /// (bishops, knights) of one side.
    pub fn minor_piece_count(&self, color: Color) -> (r: (usize, usize))
        requires
            self.wf(),
        ensures
            r.0 == piece_count(self.position().squares, PieceType::Bishop, color),
            r.1 == piece_count(self.position().squares, PieceType::Knight, color),
            r.0 <= 64 && r.1 <= 64,
    {
        (self.count_pieces(PieceType::Bishop, color), self.count_pieces(PieceType::Knight, color))
    }

    /// Neither side has enough material left to mate with: K vs K, KB vs K, KN vs K,
    /// KB vs KB, KB vs KN, KN vs KN, or a bare king against king and two knights.
    pub fn insufficient_material(&self) -> (r: bool)
        requires
            self.wf(),
        ensures
            r == insufficient_material_spec(self.position().squares),
    {
        // a single pawn, rook or queen is always enough material to mate with
        if self.count_pieces(PieceType::Pawn, Color::White) != 0 || self.count_pieces(PieceType::Pawn, Color::Black) != 0
            || self.count_pieces(PieceType::Rook, Color::White) != 0 || self.count_pieces(PieceType::Rook, Color::Black)
            != 0 || self.count_pieces(PieceType::Queen, Color::White) != 0 || self.count_pieces(
            PieceType::Queen,
            Color::Black,
        ) != 0 {
            return false;
        }
        let (white_bishops, white_knights) = self.minor_piece_count(Color::White);
        let (black_bishops, black_knights) = self.minor_piece_count(Color::Black);
        insufficient_minors([white_bishops, black_bishops], [white_knights, black_knights])
    }

    /// How often the current position has occurred in this game, the current one included.
    /// Walking back only until the last capture or pawn move is enough: no position from
    /// before such a move can ever come back.
    pub fn position_repetitions(&self) -> (r: usize)
        requires
            self.wf(),
            self.history().len() < usize::MAX,
        ensures
            r == repetitions_spec(self.history(), self.keys(), self.stored_hash(), self.history().len() as int),
    {
        let moves = self.moves_played();
        let keys = self.position_keys();
        let current = self.hash();
        proof {
            self.lemma_wf_squares();
        }
        let mut index = moves.len();
        let mut repetitions: usize = 1;
        let ghost n = self.history().len() as int;
        while index > 0
            invariant
                index <= moves@.len(),
                moves@.len() == self.history().len(),
                keys@ == self.keys(),
                keys@.len() == moves@.len(),
                current == self.stored_hash(),
                n == moves@.len(),
                n < usize::MAX,
                forall|i: int| 0 <= i < moves@.len() ==> #[trigger] moves@[i] == self.history()[i].chess_move,
                forall|i: int| 0 <= i < self.history().len() ==> valid_record(#[trigger] self.history()[i]),
                1 <= repetitions <= n - index + 1,
                repetitions_spec(self.history(), self.keys(), current, n) == repetitions - 1 + repetitions_spec(
                    self.history(),
                    self.keys(),
                    current,
                    index as int,
                ),
            decreases index,
        {
            let i = index - 1;
            assert(valid_record(self.history()[i as int]));
            if keys[i] == current {
                repetitions = repetitions + 1;
            }
            if moves[i].is_irreversible() {
                return repetitions;
            }
            index = i;
        }
        repetitions
    }

    /// The position key before each move of the history.
    pub fn position_keys(&self) -> (r: Vec<u64>)
        requires
            self.wf(),
        ensures
            r@ == self.keys(),
    {
        proof {
            self.lemma_wf_squares();
        }
        self.keys_snapshot()
    }

    /// The same position has been on the board three times.
    pub fn is_threefold_repetition(&self) -> (r: bool)
        requires
            self.wf(),
            self.history().len() < usize::MAX,
        ensures
            r == (repetitions_spec(self.history(), self.keys(), self.stored_hash(), self.history().len() as int) >= 3),
    {
        self.position_repetitions() >= 3
    }

    /// Inside the search a position met a second time already counts as a draw - the
    /// side that could avoid it would have to go somewhere else anyway; at the root only
    /// a threefold repetition does.
    pub fn is_repetition_draw(&self, ply: u32) -> (r: bool)
        requires
            self.wf(),
            self.history().len() < usize::MAX,
        ensures
            r == ({
                let reps = repetitions_spec(self.history(), self.keys(), self.stored_hash(), self.history().len() as int);
                reps >= 3 || (ply > 0 && reps >= 2)
            }),
    {
        let repetitions = self.position_repetitions();
        repetitions >= 3 || (ply > 0 && repetitions >= 2)
    }

    /// Fifty moves by each side without a capture or a pawn move.
    pub fn is_fifty_move_draw(&self) -> (r: bool)
        ensures
            r == (self.position().halfmove >= 100),
    {
        self.halfmove_clock() >= 100
    }
}

} // verus!
