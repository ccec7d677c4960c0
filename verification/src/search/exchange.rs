// Static exchange evaluation: what a capture is worth once both sides have taken on the
// square with their least valuable attacker in turn, each free to stop where going on
// would cost it.
use vstd::prelude::*;
use crate::board::board::{Board, playable};
use crate::board::chess_move::Move;
use crate::board::piece::{Color, Piece, PieceType, opponent_of, pawn_direction_of};
use crate::board::rules::move_in_range;
use crate::board::square::{
    bit, diagonal_step, diagonal_steps, en_passant_captured_spec, en_passant_captured_square, file_spec, has_bit,
    king_step, king_steps, knight_step, knight_steps, offset, offset_spec, on_board, rank_spec, ray,
    square_along, straight_step, straight_steps, walk,
};
use crate::evaluate::{base_value, piece_value};

verus! {

/// The king can never be taken, so it outweighs anything winning it could bring in.
pub const SEE_KING_VALUE: i32 = 10_000;

/// Piece values as an exchange counts them, the king included.
pub open spec fn see_value_spec(piece_type: PieceType) -> int {
    if piece_type == PieceType::King {
        SEE_KING_VALUE as int
    } else {
        base_value(piece_type)
    }
}

/// The piece on a square, unless the exchange has already taken it off.
pub open spec fn standing_spec(sq: Seq<Option<Piece>>, gone: u64, square: int) -> Option<Piece> {
    if has_bit(gone, square) {
        None
    } else {
        sq[square]
    }
}

/// A piece of this type and color one step away, as an attacker with its value.
pub open spec fn leaper_at(
    sq: Seq<Option<Piece>>,
    gone: u64,
    square: int,
    step: (int, int),
    piece_type: PieceType,
    color: Color,
) -> Option<(int, int)> {
    match offset_spec(square, step.0, step.1) {
        Some(from) => match standing_spec(sq, gone, from) {
            Some(p) => if p.kind() == piece_type && p.side() == color {
                Some((from, see_value_spec(piece_type)))
            } else {
                None
            },
            None => None,
        },
        None => None,
    }
}

/// The first square from `k` steps out along a line that still holds a piece.
pub open spec fn first_standing(sq: Seq<Option<Piece>>, gone: u64, square: int, step: (int, int), k: int) -> Option<int>
    decreases 9 - k,
{
    if k < 1 || k > 8 {
        None
    } else if !on_board(walk(file_spec(square), step.0, k), walk(rank_spec(square), step.1, k)) {
        None
    } else if standing_spec(sq, gone, square_along(square, step.0, step.1, k)) is Some {
        Some(square_along(square, step.0, step.1, k))
    } else {
        first_standing(sq, gone, square, step, k + 1)
    }
}

/// The first piece along a line, as an attacker, when it is of `color` and moves along
/// such lines: the slider itself or a queen.
pub open spec fn slider_at(
    sq: Seq<Option<Piece>>,
    gone: u64,
    square: int,
    step: (int, int),
    slider: PieceType,
    color: Color,
) -> Option<(int, int)> {
    match first_standing(sq, gone, square, step, 1) {
        Some(from) => {
            let p = standing_spec(sq, gone, from).unwrap();
            if p.side() == color && (p.kind() == slider || p.kind() == PieceType::Queen) {
                Some((from, see_value_spec(p.kind())))
            } else {
                None
            }
        },
        None => None,
    }
}

/// `s` is the square `k + 1` steps out from `square` along `step`, on the board.
pub open spec fn along_ray(square: int, step: (i8, i8), k: int, s: u8) -> bool {
    &&& s == square_along(square, step.0 as int, step.1 as int, k + 1)
    &&& s < 64
    &&& on_board(walk(file_spec(square), step.0 as int, k + 1), walk(rank_spec(square), step.1 as int, k + 1))
}

/// The cheaper of the two, the one found first on a tie.
pub open spec fn pick(best: Option<(int, int)>, candidate: Option<(int, int)>) -> Option<(int, int)> {
    match candidate {
        None => best,
        Some(c) => match best {
            None => Some(c),
            Some(b) => if c.1 < b.1 { Some(c) } else { best },
        },
    }
}

/// The cheapest knight attacker among the first `n` knight steps.
pub open spec fn scan_knights(sq: Seq<Option<Piece>>, gone: u64, square: int, color: Color, n: int) -> Option<(int, int)>
    decreases n,
{
    if n <= 0 {
        None
    } else {
        pick(scan_knights(sq, gone, square, color, n - 1), leaper_at(sq, gone, square, knight_step(n - 1), PieceType::Knight, color))
    }
}

/// Then the king steps.
pub open spec fn scan_kings(sq: Seq<Option<Piece>>, gone: u64, square: int, color: Color, n: int) -> Option<(int, int)>
    decreases n,
{
    if n <= 0 {
        scan_knights(sq, gone, square, color, 8)
    } else {
        pick(scan_kings(sq, gone, square, color, n - 1), leaper_at(sq, gone, square, king_step(n - 1), PieceType::King, color))
    }
}

/// Then the diagonals.
pub open spec fn scan_diagonals(sq: Seq<Option<Piece>>, gone: u64, square: int, color: Color, n: int) -> Option<(int, int)>
    decreases n,
{
    if n <= 0 {
        scan_kings(sq, gone, square, color, 8)
    } else {
        pick(scan_diagonals(sq, gone, square, color, n - 1), slider_at(sq, gone, square, diagonal_step(n - 1), PieceType::Bishop, color))
    }
}

/// Then the files and ranks.
pub open spec fn scan_straights(sq: Seq<Option<Piece>>, gone: u64, square: int, color: Color, n: int) -> Option<(int, int)>
    decreases n,
{
    if n <= 0 {
        scan_diagonals(sq, gone, square, color, 4)
    } else {
        pick(scan_straights(sq, gone, square, color, n - 1), slider_at(sq, gone, square, straight_step(n - 1), PieceType::Rook, color))
    }
}

/// A pawn of `color` that takes on `square` from the given side.
pub open spec fn pawn_attacker(sq: Seq<Option<Piece>>, gone: u64, square: int, color: Color, file_step: int) -> Option<(int, int)> {
    leaper_at(sq, gone, square, (file_step, -pawn_direction_of(color)), PieceType::Pawn, color)
}

/// The cheapest piece of `color` that can take on `square`, pieces in `gone` left out:
/// a pawn whenever there is one, otherwise the cheapest of the knights, the king and the
/// first piece along each line, the first one found on a tie.
pub open spec fn cheapest_attacker(sq: Seq<Option<Piece>>, square: int, color: Color, gone: u64) -> Option<(int, int)> {
    if pawn_attacker(sq, gone, square, color, -1) is Some {
        pawn_attacker(sq, gone, square, color, -1)
    } else if pawn_attacker(sq, gone, square, color, 1) is Some {
        pawn_attacker(sq, gone, square, color, 1)
    } else {
        scan_straights(sq, gone, square, color, 4)
    }
}

/// The knight standing the `i`-th knight jump away that can take on `square`, if any.
pub open spec fn knight_found(sq: Seq<Option<Piece>>, gone: u64, square: int, color: Color, i: int) -> Option<(int, int)> {
    leaper_at(sq, gone, square, knight_step(i), PieceType::Knight, color)
}

/// The king one `i`-th king step away that can take on `square`, if any.
pub open spec fn king_found(sq: Seq<Option<Piece>>, gone: u64, square: int, color: Color, i: int) -> Option<(int, int)> {
    leaper_at(sq, gone, square, king_step(i), PieceType::King, color)
}

/// The bishop or queen first along the `i`-th diagonal that can take on `square`, if any.
pub open spec fn diagonal_found(sq: Seq<Option<Piece>>, gone: u64, square: int, color: Color, i: int) -> Option<(int, int)> {
    slider_at(sq, gone, square, diagonal_step(i), PieceType::Bishop, color)
}

/// The rook or queen first along the `i`-th file or rank direction that can take on
/// `square`, if any.
pub open spec fn straight_found(sq: Seq<Option<Piece>>, gone: u64, square: int, color: Color, i: int) -> Option<(int, int)> {
    slider_at(sq, gone, square, straight_step(i), PieceType::Rook, color)
}

/// An attacker found this way costs at least `value`.
pub open spec fn no_cheaper(value: int, found: Option<(int, int)>) -> bool {
    found matches Some(other) ==> value <= other.1
}

/// `c` is one of the attackers of `square` that a knight jump, a king step or a line
/// away finds.
pub open spec fn found_piece(sq: Seq<Option<Piece>>, gone: u64, square: int, color: Color, c: (int, int)) -> bool {
    ||| exists|i: int| 0 <= i < 8 && #[trigger] knight_found(sq, gone, square, color, i) == Some(c)
    ||| exists|i: int| 0 <= i < 8 && #[trigger] king_found(sq, gone, square, color, i) == Some(c)
    ||| exists|i: int| 0 <= i < 4 && #[trigger] diagonal_found(sq, gone, square, color, i) == Some(c)
    ||| exists|i: int| 0 <= i < 4 && #[trigger] straight_found(sq, gone, square, color, i) == Some(c)
}

proof fn lemma_pick(best: Option<(int, int)>, candidate: Option<(int, int)>)
    ensures
        pick(best, candidate) matches Some(c) ==> no_cheaper(c.1, best) && no_cheaper(c.1, candidate) && (Some(c) == best
            || Some(c) == candidate),
        pick(best, candidate) is None ==> best is None && candidate is None,
{
}

proof fn lemma_scan_knights(sq: Seq<Option<Piece>>, gone: u64, square: int, color: Color, n: int)
    requires
        0 <= n <= 8,
    ensures
        scan_knights(sq, gone, square, color, n) matches Some(c) ==> found_piece(sq, gone, square, color, c) && forall|i: int|
            0 <= i < n ==> no_cheaper(c.1, #[trigger] knight_found(sq, gone, square, color, i)),
        scan_knights(sq, gone, square, color, n) is None ==> forall|i: int|
            0 <= i < n ==> #[trigger] knight_found(sq, gone, square, color, i) is None,
    decreases n,
{
    if n > 0 {
        lemma_scan_knights(sq, gone, square, color, n - 1);
        let prev = scan_knights(sq, gone, square, color, n - 1);
        let cand = knight_found(sq, gone, square, color, n - 1);
        lemma_pick(prev, cand);
        if let Some(c) = scan_knights(sq, gone, square, color, n) {
            if Some(c) == cand {
                assert(knight_found(sq, gone, square, color, n - 1) == Some(c));
            }
        }
    }
}

proof fn lemma_scan_kings(sq: Seq<Option<Piece>>, gone: u64, square: int, color: Color, n: int)
    requires
        0 <= n <= 8,
    ensures
        scan_kings(sq, gone, square, color, n) matches Some(c) ==> found_piece(sq, gone, square, color, c) && (forall|i: int|
            0 <= i < 8 ==> no_cheaper(c.1, #[trigger] knight_found(sq, gone, square, color, i))) && (forall|i: int|
            0 <= i < n ==> no_cheaper(c.1, #[trigger] king_found(sq, gone, square, color, i))),
        scan_kings(sq, gone, square, color, n) is None ==> (forall|i: int|
            0 <= i < 8 ==> #[trigger] knight_found(sq, gone, square, color, i) is None) && (forall|i: int|
            0 <= i < n ==> #[trigger] king_found(sq, gone, square, color, i) is None),
    decreases n,
{
    if n == 0 {
        lemma_scan_knights(sq, gone, square, color, 8);
    } else {
        lemma_scan_kings(sq, gone, square, color, n - 1);
        let prev = scan_kings(sq, gone, square, color, n - 1);
        let cand = king_found(sq, gone, square, color, n - 1);
        lemma_pick(prev, cand);
        if let Some(c) = scan_kings(sq, gone, square, color, n) {
            if Some(c) == cand {
                assert(king_found(sq, gone, square, color, n - 1) == Some(c));
            }
        }
    }
}

proof fn lemma_scan_diagonals(sq: Seq<Option<Piece>>, gone: u64, square: int, color: Color, n: int)
    requires
        0 <= n <= 4,
    ensures
        scan_diagonals(sq, gone, square, color, n) matches Some(c) ==> found_piece(sq, gone, square, color, c) && (forall|
            i: int,
        | 0 <= i < 8 ==> no_cheaper(c.1, #[trigger] knight_found(sq, gone, square, color, i))) && (forall|i: int|
            0 <= i < 8 ==> no_cheaper(c.1, #[trigger] king_found(sq, gone, square, color, i))) && (forall|i: int|
            0 <= i < n ==> no_cheaper(c.1, #[trigger] diagonal_found(sq, gone, square, color, i))),
        scan_diagonals(sq, gone, square, color, n) is None ==> (forall|i: int|
            0 <= i < 8 ==> #[trigger] knight_found(sq, gone, square, color, i) is None) && (forall|i: int|
            0 <= i < 8 ==> #[trigger] king_found(sq, gone, square, color, i) is None) && (forall|i: int|
            0 <= i < n ==> #[trigger] diagonal_found(sq, gone, square, color, i) is None),
    decreases n,
{
    if n == 0 {
        lemma_scan_kings(sq, gone, square, color, 8);
    } else {
        lemma_scan_diagonals(sq, gone, square, color, n - 1);
        let prev = scan_diagonals(sq, gone, square, color, n - 1);
        let cand = diagonal_found(sq, gone, square, color, n - 1);
        lemma_pick(prev, cand);
        if let Some(c) = scan_diagonals(sq, gone, square, color, n) {
            if Some(c) == cand {
                assert(diagonal_found(sq, gone, square, color, n - 1) == Some(c));
            }
        }
    }
}

proof fn lemma_scan_straights(sq: Seq<Option<Piece>>, gone: u64, square: int, color: Color, n: int)
    requires
        0 <= n <= 4,
    ensures
        scan_straights(sq, gone, square, color, n) matches Some(c) ==> found_piece(sq, gone, square, color, c) && (forall|
            i: int,
        | 0 <= i < 8 ==> no_cheaper(c.1, #[trigger] knight_found(sq, gone, square, color, i))) && (forall|i: int|
            0 <= i < 8 ==> no_cheaper(c.1, #[trigger] king_found(sq, gone, square, color, i))) && (forall|i: int|
            0 <= i < 4 ==> no_cheaper(c.1, #[trigger] diagonal_found(sq, gone, square, color, i))) && (forall|i: int|
            0 <= i < n ==> no_cheaper(c.1, #[trigger] straight_found(sq, gone, square, color, i))),
        scan_straights(sq, gone, square, color, n) is None ==> (forall|i: int|
            0 <= i < 8 ==> #[trigger] knight_found(sq, gone, square, color, i) is None) && (forall|i: int|
            0 <= i < 8 ==> #[trigger] king_found(sq, gone, square, color, i) is None) && (forall|i: int|
            0 <= i < 4 ==> #[trigger] diagonal_found(sq, gone, square, color, i) is None) && (forall|i: int|
            0 <= i < n ==> #[trigger] straight_found(sq, gone, square, color, i) is None),
    decreases n,
{
    if n == 0 {
        lemma_scan_diagonals(sq, gone, square, color, 4);
    } else {
        lemma_scan_straights(sq, gone, square, color, n - 1);
        let prev = scan_straights(sq, gone, square, color, n - 1);
        let cand = straight_found(sq, gone, square, color, n - 1);
        lemma_pick(prev, cand);
        if let Some(c) = scan_straights(sq, gone, square, color, n) {
            if Some(c) == cand {
                assert(straight_found(sq, gone, square, color, n - 1) == Some(c));
            }
        }
    }
}

/// No attacker is worth less than a pawn.
proof fn lemma_attackers_cost_a_pawn_at_least(sq: Seq<Option<Piece>>, gone: u64, square: int, color: Color, i: int)
    ensures
        no_cheaper(see_value_spec(PieceType::Pawn), knight_found(sq, gone, square, color, i)),
        no_cheaper(see_value_spec(PieceType::Pawn), king_found(sq, gone, square, color, i)),
        no_cheaper(see_value_spec(PieceType::Pawn), diagonal_found(sq, gone, square, color, i)),
        no_cheaper(see_value_spec(PieceType::Pawn), straight_found(sq, gone, square, color, i)),
{
}

/// The exchange always recaptures with the least valuable attacker: the piece it uses to
/// take on `square` is one that can take there - a pawn, or a knight, king, bishop, rook or
/// queen a jump, a step or a clear line away - and every other piece of that side that
/// can take there is worth at least as much. When none is used, the side has no piece
/// that can take on the square.
pub proof fn law_the_exchange_takes_with_the_cheapest_attacker(sq: Seq<Option<Piece>>, square: int, color: Color, gone: u64)
    ensures
        cheapest_attacker(sq, square, color, gone) matches Some(c) ==> {
            &&& (Some(c) == pawn_attacker(sq, gone, square, color, -1) || Some(c) == pawn_attacker(sq, gone, square, color, 1)
                || found_piece(sq, gone, square, color, c))
            &&& no_cheaper(c.1, pawn_attacker(sq, gone, square, color, -1))
            &&& no_cheaper(c.1, pawn_attacker(sq, gone, square, color, 1))
            &&& forall|i: int| 0 <= i < 8 ==> no_cheaper(c.1, #[trigger] knight_found(sq, gone, square, color, i))
            &&& forall|i: int| 0 <= i < 8 ==> no_cheaper(c.1, #[trigger] king_found(sq, gone, square, color, i))
            &&& forall|i: int| 0 <= i < 4 ==> no_cheaper(c.1, #[trigger] diagonal_found(sq, gone, square, color, i))
            &&& forall|i: int| 0 <= i < 4 ==> no_cheaper(c.1, #[trigger] straight_found(sq, gone, square, color, i))
        },
        cheapest_attacker(sq, square, color, gone) is None ==> {
            &&& pawn_attacker(sq, gone, square, color, -1) is None
            &&& pawn_attacker(sq, gone, square, color, 1) is None
            &&& forall|i: int| 0 <= i < 8 ==> #[trigger] knight_found(sq, gone, square, color, i) is None
            &&& forall|i: int| 0 <= i < 8 ==> #[trigger] king_found(sq, gone, square, color, i) is None
            &&& forall|i: int| 0 <= i < 4 ==> #[trigger] diagonal_found(sq, gone, square, color, i) is None
            &&& forall|i: int| 0 <= i < 4 ==> #[trigger] straight_found(sq, gone, square, color, i) is None
        },
{
    lemma_scan_straights(sq, gone, square, color, 4);
    assert forall|i: int| 0 <= i < 8 implies {
        &&& no_cheaper(see_value_spec(PieceType::Pawn), #[trigger] knight_found(sq, gone, square, color, i))
        &&& no_cheaper(see_value_spec(PieceType::Pawn), king_found(sq, gone, square, color, i))
        &&& no_cheaper(see_value_spec(PieceType::Pawn), diagonal_found(sq, gone, square, color, i))
        &&& no_cheaper(see_value_spec(PieceType::Pawn), straight_found(sq, gone, square, color, i))
    } by {
        lemma_attackers_cost_a_pawn_at_least(sq, gone, square, color, i);
    }
    assert forall|i: int| 0 <= i < 8 implies no_cheaper(see_value_spec(PieceType::Pawn), #[trigger] king_found(sq, gone, square, color, i)) by {
        lemma_attackers_cost_a_pawn_at_least(sq, gone, square, color, i);
    }
    assert forall|i: int| 0 <= i < 4 implies no_cheaper(see_value_spec(PieceType::Pawn), #[trigger] diagonal_found(sq, gone, square, color, i)) by {
        lemma_attackers_cost_a_pawn_at_least(sq, gone, square, color, i);
    }
    assert forall|i: int| 0 <= i < 4 implies no_cheaper(see_value_spec(PieceType::Pawn), #[trigger] straight_found(sq, gone, square, color, i)) by {
        lemma_attackers_cost_a_pawn_at_least(sq, gone, square, color, i);
    }
}

/// A found attacker as plain numbers.
pub open spec fn attacker_view(found: Option<(u8, i32)>) -> Option<(int, int)> {
    match found {
        Some((s, v)) => Some((s as int, v as int)),
        None => None,
    }
}

/// What `side` nets by being free to take on `to`, where a piece worth `on_square` now
/// stands: nothing when it has no attacker, when its only one is a king the other side
/// could take back, or once 31 captures have been made; otherwise the better of not
/// taking and taking with its cheapest attacker, net of what the other side then nets.
pub open spec fn exchange_spec(sq: Seq<Option<Piece>>, to: int, side: Color, gone: u64, on_square: int, count: int) -> int
    decreases 32 - count,
{
    if count >= 32 {
        0
    } else {
        match cheapest_attacker(sq, to, side, gone) {
            None => 0,
            Some((from, value)) => {
                let after = gone | (1u64 << (from as u64));
                if value == SEE_KING_VALUE && cheapest_attacker(sq, to, opponent_of(side), after) is Some {
                    0
                } else {
                    let answer = on_square - exchange_spec(sq, to, opponent_of(side), after, value, count + 1);
                    if answer > 0 { answer } else { 0 }
                }
            },
        }
    }
}

/// What a capture wins once the recaptures have been played out: what it takes (and
/// what a promotion adds) less what the opponent nets by taking back. Negative means the
/// recaptures win the material back.
pub open spec fn see_spec(sq: Seq<Option<Piece>>, m: Move) -> int {
    let color = m.piece.side();
    let from_gone = 1u64 << (m.from as u64);
    let gone = if m.en_passant {
        from_gone | (1u64 << (en_passant_captured_spec(m.to as int, color) as u64))
    } else {
        from_gone
    };
    let promotion = match m.promotion {
        Some(t) => see_value_spec(t) - see_value_spec(PieceType::Pawn),
        None => 0,
    };
    let first = match m.captured {
        Some(c) => see_value_spec(c.kind()),
        None => 0,
    } + promotion;
    let on_square = match m.promotion {
        Some(t) => see_value_spec(t),
        None => see_value_spec(m.piece.kind()),
    };
    first - exchange_spec(sq, m.to as int, opponent_of(color), gone, on_square, 1)
}

/// Piece values as an exchange counts them, the king included.
pub fn see_value(piece_type: PieceType) -> (r: i32)
    ensures
        r == see_value_spec(piece_type),
        0 <= r <= SEE_KING_VALUE,
{
    match piece_type {
        PieceType::King => SEE_KING_VALUE,
        other => piece_value(other) as i32,
    }
}

/// The piece on a square, once what the exchange has taken off is gone.
pub fn standing(board: &Board, square: u8, gone: u64) -> (r: Option<Piece>)
    requires
        board.wf(),
        square < 64,
    ensures
        r == standing_spec(board.position().squares, gone, square as int),
        r matches Some(p) ==> p.valid(),
{
    proof {
        board.lemma_wf_squares();
    }
    let mask = bit(square);
    assert(((gone & (1u64 << square)) == 0) == !((gone >> (square as u64)) & 1 == 1)) by (bit_vector)
        requires
            square < 64,
    ;
    if gone & mask == 0 {
        board.piece_at(square)
    } else {
        None
    }
}

/// The cheaper of the best so far and a new candidate, keeping the earlier one on a tie.
fn cheaper(best: Option<(u8, i32)>, square: u8, value: i32) -> (r: Option<(u8, i32)>)
    ensures
        attacker_view(r) == pick(attacker_view(best), Some((square as int, value as int))),
{
    match best {
        None => Some((square, value)),
        Some((s, current)) => if value < current { Some((square, value)) } else { best },
    }
}

/// A piece of this type and color one step away, as an attacker with its value.
fn leaper(board: &Board, square: u8, gone: u64, step: (i8, i8), piece_type: PieceType, color: Color) -> (r: Option<(u8, i32)>)
    requires
        board.wf(),
        square < 64,
        -2 <= step.0 <= 2,
        -2 <= step.1 <= 2,
    ensures
        attacker_view(r) == leaper_at(board.position().squares, gone, square as int, (step.0 as int, step.1 as int), piece_type, color),
        r matches Some((s, v)) ==> s < 64 && 0 <= v <= SEE_KING_VALUE,
{
    match offset(square, step) {
        Some(from) => match standing(board, from, gone) {
            Some(piece) => if piece.is(piece_type) && piece.color() == color {
                Some((from, see_value(piece_type)))
            } else {
                None
            },
            None => None,
        },
        None => None,
    }
}

/// The first piece along a line from `square`, as an attacker, when it is of `color` and
/// is the slider or a queen.
fn slider(board: &Board, square: u8, gone: u64, step: (i8, i8), kind: PieceType, color: Color) -> (r: Option<(u8, i32)>)
    requires
        board.wf(),
        square < 64,
        -1 <= step.0 <= 1,
        -1 <= step.1 <= 1,
        step.0 != 0 || step.1 != 0,
    ensures
        attacker_view(r) == slider_at(board.position().squares, gone, square as int, (step.0 as int, step.1 as int), kind, color),
        r matches Some((s, v)) ==> s < 64 && 0 <= v <= SEE_KING_VALUE,
{
    let line = ray(square, step);
    assert forall|k: int| #![trigger line@[k]] 0 <= k < line@.len() implies along_ray(square as int, step, k, line@[k]) by {
        assert(line@[k] < 64);
    }
    let ghost st = (step.0 as int, step.1 as int);
    let ghost sq = board.position().squares;
    let mut index: usize = 0;
    while index < line.len()
        invariant
            board.wf(),
            sq == board.position().squares,
            square < 64,
            -1 <= step.0 <= 1,
            -1 <= step.1 <= 1,
            step.0 != 0 || step.1 != 0,
            st == (step.0 as int, step.1 as int),
            index <= line@.len(),
            forall|k: int| #![trigger line@[k]] 0 <= k < line@.len() ==> along_ray(square as int, step, k, line@[k]),
            !on_board(
                walk(file_spec(square as int), step.0 as int, line@.len() as int + 1),
                walk(rank_spec(square as int), step.1 as int, line@.len() as int + 1),
            ),
            first_standing(sq, gone, square as int, st, 1) == first_standing(sq, gone, square as int, st, index as int + 1),
        decreases line.len() - index,
    {
        let from = line[index];
        assert(line@[index as int] < 64);
        proof {
            let k = index as int + 1;
            assert(on_board(walk(file_spec(square as int), st.0, k), walk(rank_spec(square as int), st.1, k)));
            assert(k <= 8) by {
                if st.0 > 0 {
                    assert(walk(file_spec(square as int), st.0, k) == file_spec(square as int) + k);
                } else if st.0 < 0 {
                    assert(walk(file_spec(square as int), st.0, k) == file_spec(square as int) - k);
                } else if st.1 > 0 {
                    assert(walk(rank_spec(square as int), st.1, k) == rank_spec(square as int) + k);
                } else {
                    assert(walk(rank_spec(square as int), st.1, k) == rank_spec(square as int) - k);
                }
            }
        }
        match standing(board, from, gone) {
            Some(piece) => {
                if piece.color() == color && (piece.is(kind) || piece.is(PieceType::Queen)) {
                    return Some((from, see_value(piece.piece_type())));
                }
                return None;
            },
            None => {},
        }
        index = index + 1;
    }
    None
}

/// The cheapest piece of `color` that can take on `square`; pieces in `gone` are off.
pub fn least_valuable_attacker(board: &Board, square: u8, color: Color, gone: u64) -> (r: Option<(u8, i32)>)
    requires
        board.wf(),
        square < 64,
    ensures
        attacker_view(r) == cheapest_attacker(board.position().squares, square as int, color, gone),
        r matches Some((s, v)) ==> s < 64 && 0 <= v <= SEE_KING_VALUE,
{
    let ghost sq = board.position().squares;
    // a pawn attacks from one rank back along its own direction of travel
    let back: i8 = -color.pawn_direction();
    let left = leaper(board, square, gone, (-1, back), PieceType::Pawn, color);
    if left.is_some() {
        return left;
    }
    let right = leaper(board, square, gone, (1, back), PieceType::Pawn, color);
    if right.is_some() {
        return right;
    }

    let mut best: Option<(u8, i32)> = None;
    let knights = knight_steps();
    let mut i: usize = 0;
    while i < 8
        invariant
            board.wf(),
            sq == board.position().squares,
            square < 64,
            i <= 8,
            forall|j: int| 0 <= j < 8 ==> (knights@[j].0 as int, knights@[j].1 as int) == #[trigger] knight_step(j),
            attacker_view(best) == scan_knights(sq, gone, square as int, color, i as int),
            best matches Some((s, v)) ==> s < 64 && 0 <= v <= SEE_KING_VALUE,
        decreases 8 - i,
    {
        let step = knights[i];
        assert((step.0 as int, step.1 as int) == knight_step(i as int));
        match leaper(board, square, gone, step, PieceType::Knight, color) {
            Some((from, value)) => {
                best = cheaper(best, from, value);
            },
            None => {},
        }
        i = i + 1;
    }
    let kings = king_steps();
    let mut i: usize = 0;
    while i < 8
        invariant
            board.wf(),
            sq == board.position().squares,
            square < 64,
            i <= 8,
            forall|j: int| 0 <= j < 8 ==> (kings@[j].0 as int, kings@[j].1 as int) == #[trigger] king_step(j),
            attacker_view(best) == scan_kings(sq, gone, square as int, color, i as int),
            best matches Some((s, v)) ==> s < 64 && 0 <= v <= SEE_KING_VALUE,
        decreases 8 - i,
    {
        let step = kings[i];
        assert((step.0 as int, step.1 as int) == king_step(i as int));
        match leaper(board, square, gone, step, PieceType::King, color) {
            Some((from, value)) => {
                best = cheaper(best, from, value);
            },
            None => {},
        }
        i = i + 1;
    }
    // the first piece a line runs into is the only one that can attack along it
    let diagonals = diagonal_steps();
    let mut i: usize = 0;
    while i < 4
        invariant
            board.wf(),
            sq == board.position().squares,
            square < 64,
            i <= 4,
            forall|j: int| 0 <= j < 4 ==> (diagonals@[j].0 as int, diagonals@[j].1 as int) == #[trigger] diagonal_step(j),
            attacker_view(best) == scan_diagonals(sq, gone, square as int, color, i as int),
            best matches Some((s, v)) ==> s < 64 && 0 <= v <= SEE_KING_VALUE,
        decreases 4 - i,
    {
        let step = diagonals[i];
        assert((step.0 as int, step.1 as int) == diagonal_step(i as int));
        match slider(board, square, gone, step, PieceType::Bishop, color) {
            Some((from, value)) => {
                best = cheaper(best, from, value);
            },
            None => {},
        }
        i = i + 1;
    }
    let straights = straight_steps();
    let mut i: usize = 0;
    while i < 4
        invariant
            board.wf(),
            sq == board.position().squares,
            square < 64,
            i <= 4,
            forall|j: int| 0 <= j < 4 ==> (straights@[j].0 as int, straights@[j].1 as int) == #[trigger] straight_step(j),
            attacker_view(best) == scan_straights(sq, gone, square as int, color, i as int),
            best matches Some((s, v)) ==> s < 64 && 0 <= v <= SEE_KING_VALUE,
        decreases 4 - i,
    {
        let step = straights[i];
        assert((step.0 as int, step.1 as int) == straight_step(i as int));
        match slider(board, square, gone, step, PieceType::Rook, color) {
            Some((from, value)) => {
                best = cheaper(best, from, value);
            },
            None => {},
        }
        i = i + 1;
    }
    best
}

/// What `side` nets by being free to take on `to`, where a piece worth `on_square` stands.
fn exchange(board: &Board, to: u8, side: Color, gone: u64, on_square: i32, count: u32) -> (r: i32)
    requires
        board.wf(),
        to < 64,
        0 <= on_square <= SEE_KING_VALUE,
    ensures
        r == exchange_spec(board.position().squares, to as int, side, gone, on_square as int, count as int),
        0 <= r <= on_square,
    decreases 32 - count,
{
    if count >= 32 {
        return 0;
    }
    match least_valuable_attacker(board, to, side, gone) {
        None => 0,
        Some((from, value)) => {
            let after = gone | bit(from);
            // the king may only take where nothing is left to take it back
            if value == SEE_KING_VALUE && least_valuable_attacker(board, to, side.opponent(), after).is_some() {
                return 0;
            }
            let answer = on_square - exchange(board, to, side.opponent(), after, value, count + 1);
            if answer > 0 {
                answer
            } else {
                0
            }
        },
    }
}

/// What a capture is worth once both sides have taken on the square with their least
/// valuable attacker in turn; negative means the recaptures win the material back.
pub fn see(board: &Board, chess_move: &Move) -> (r: i32)
    requires
        board.wf(),
        playable(*chess_move),
    ensures
        r == see_spec(board.position().squares, *chess_move),
{
    let to = chess_move.to;
    let color = chess_move.piece.color();
    let mut gone = bit(chess_move.from);
    // the pawn taken en passant never stood on `to`
    if chess_move.en_passant {
        gone = gone | bit(en_passant_captured_square(to, color));
    }
    let promotion: i32 = match chess_move.promotion {
        Some(piece_type) => see_value(piece_type) - see_value(PieceType::Pawn),
        None => 0,
    };
    let taken: i32 = match chess_move.captured {
        Some(piece) => see_value(piece.piece_type()),
        None => 0,
    };
    // what stands on the square now, waiting to be taken back
    let on_square = match chess_move.promotion {
        Some(piece_type) => see_value(piece_type),
        None => see_value(chess_move.piece.piece_type()),
    };
    taken + promotion - exchange(board, to, color.opponent(), gone, on_square, 1)
}

} // verus!
