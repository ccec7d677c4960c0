// What the window reads out and how a click on the board is read: the numbers as they
// are written in the side panel, whether the game on the board is over, and where a
// picked-up piece may go. The drawing itself is left to whoever shows the window.
use vstd::prelude::*;
use crate::board::board::Board;
use crate::board::chess_move::Move;
use crate::board::piece::{Color, Piece, PieceType};
use crate::board::rules::in_check;
use crate::board::status::{insufficient_material_spec, no_legal_moves, repetitions_spec};
use crate::clock::TimeControl;
use crate::evaluate::MATE;
use crate::search::perft::{legal_list, lemma_generated_is_legal_list};
use crate::text::{decimal_spec, digit, digit_char, push_char, push_decimal, push_text, signed_decimal_spec};

verus! {

/// The last three digits of a number, leading zeros kept.
pub open spec fn three_digits(k: nat) -> Seq<char> {
    seq![digit_char((k / 100) as int), digit_char(((k / 10) % 10) as int), digit_char((k % 10) as int)]
}

/// A count with a comma between each group of three digits: 197281 reads "197,281".
pub open spec fn count_text(n: nat) -> Seq<char>
    decreases n,
{
    if n < 1000 {
        decimal_spec(n)
    } else {
        count_text(n / 1000) + seq![','] + three_digits(n % 1000)
    }
}

/// Centipawns as pawns with two decimals and a sign, "+0.40" or "-1.25", and "0.00"
/// for an even position.
pub open spec fn evaluation_text(score: int) -> Seq<char> {
    if score == 0 {
        seq!['0', '.', '0', '0']
    } else {
        let a = if score < 0 { -score } else { score };
        seq![if score < 0 { '-' } else { '+' }] + decimal_spec((a / 100) as nat) + seq![
            '.',
            digit_char((a % 100) / 10),
            digit_char(a % 10),
        ]
    }
}

/// Division by two that rounds towards zero, as the machine does.
pub open spec fn half_toward_zero(a: int) -> int {
    if a >= 0 { a / 2 } else { -((-a) / 2) }
}

/// A search score: a mate within a thousand plies reads as "#n", the move the mate is
/// delivered on, with a minus sign in front when the side it is counted for is mated
/// ("#" alone for a mate already on the board); any other score reads as pawns.
pub open spec fn score_text(score: int) -> Seq<char> {
    let plies = MATE - (if score < 0 { -score } else { score });
    if plies < 1000 {
        let moves = half_toward_zero(plies + 1);
        let sign = if score < 0 { seq!['-'] } else { Seq::<char>::empty() };
        if moves == 0 {
            sign + seq!['#']
        } else {
            sign + seq!['#'] + signed_decimal_spec(moves)
        }
    } else {
        evaluation_text(score)
    }
}

/// Appends a count with its thousands separated by commas.
fn push_count(text: &mut String, n: u64)
    ensures
        final(text)@ == old(text)@ + count_text(n as nat),
    decreases n,
{
    if n < 1000 {
        push_decimal(text, n as u128);
    } else {
        push_count(text, n / 1000);
        push_char(text, ',');
        let k = n % 1000;
        push_char(text, digit((k / 100) as u128));
        push_char(text, digit(((k / 10) % 10) as u128));
        push_char(text, digit((k % 10) as u128));
    }
    assert(text@ =~= old(text)@ + count_text(n as nat));
}

/// A count as the panel shows it, e.g. "197,281".
pub fn format_count(count: u64) -> (r: String)
    ensures
        r@ == count_text(count as nat),
{
    let mut text = String::new();
    push_count(&mut text, count);
    assert(text@ =~= count_text(count as nat));
    text
}

/// Centipawns as pawns, the way an engine reads them out: "+0.40", "-1.25", "0.00".
pub fn format_evaluation(score: i32) -> (r: String)
    ensures
        r@ == evaluation_text(score as int),
{
    let mut text = String::new();
    if score == 0 {
        push_char(&mut text, '0');
        push_char(&mut text, '.');
        push_char(&mut text, '0');
        push_char(&mut text, '0');
    } else {
        let a: u64 = if score < 0 { (0 - (score as i64)) as u64 } else { score as u64 };
        push_char(&mut text, if score < 0 { '-' } else { '+' });
        push_decimal(&mut text, (a / 100) as u128);
        push_char(&mut text, '.');
        push_char(&mut text, digit(((a % 100) / 10) as u128));
        push_char(&mut text, digit((a % 10) as u128));
    }
    assert(text@ =~= evaluation_text(score as int));
    text
}

/// A search score: a mate reads as the number of moves until it, everything else as
/// pawns like the static evaluation.
pub fn format_score(score: i32) -> (r: String)
    requires
        score > i32::MIN,
    ensures
        r@ == score_text(score as int),
{
    let magnitude: i32 = if score < 0 { -score } else { score };
    let plies: i32 = MATE - magnitude;
    if plies < 1000 {
        // a mate `n` plies away is delivered on move (n + 1) / 2
        let moves: i32 = (plies + 1) / 2;
        let mut text = String::new();
        if score < 0 {
            push_char(&mut text, '-');
        }
        push_char(&mut text, '#');
        if moves != 0 {
            if moves < 0 {
                push_char(&mut text, '-');
                push_decimal(&mut text, (0 - moves) as u128);
            } else {
                push_decimal(&mut text, moves as u128);
            }
        }
        assert(moves as int == half_toward_zero(plies + 1));
        assert(text@ =~= score_text(score as int));
        return text;
    }
    format_evaluation(score)
}

/// A score counted for the side to move, turned to white's point of view.
pub fn white_view(turn: Color, score: i32) -> (r: i32)
    requires
        score > i32::MIN,
    ensures
        r == (match turn {
            Color::White => score as int,
            Color::Black => -score,
        }),
{
    match turn {
        Color::White => score,
        Color::Black => -score,
    }
}

/// Whether two controls are the same kind, whatever numbers they hold.
pub fn same_mode(left: TimeControl, right: TimeControl) -> (r: bool)
    ensures
        r == ((left is Depth && right is Depth) || (left is MoveTime && right is MoveTime) || (left is Clock
            && right is Clock)),
{
    match (left, right) {
        (TimeControl::Depth, TimeControl::Depth) => true,
        (TimeControl::MoveTime(_), TimeControl::MoveTime(_)) => true,
        (TimeControl::Clock { .. }, TimeControl::Clock { .. }) => true,
        _ => false,
    }
}

/// The name a piece type goes by.
pub open spec fn piece_name_spec(piece_type: PieceType) -> Seq<char> {
    match piece_type {
        PieceType::King => "King"@,
        PieceType::Pawn => "Pawn"@,
        PieceType::Knight => "Knight"@,
        PieceType::Bishop => "Bishop"@,
        PieceType::Rook => "Rook"@,
        PieceType::Queen => "Queen"@,
    }
}

/// The name a piece type goes by, as its switch is labelled.
pub fn piece_name(piece_type: PieceType) -> (r: &'static str)
    ensures
        r@ == piece_name_spec(piece_type),
{
    match piece_type {
        PieceType::King => "King",
        PieceType::Pawn => "Pawn",
        PieceType::Knight => "Knight",
        PieceType::Bishop => "Bishop",
        PieceType::Rook => "Rook",
        PieceType::Queen => "Queen",
    }
}

/// The game on the board has ended: mate, stalemate, too little material, the third
/// repetition, or fifty moves without a capture or a pawn move.
pub open spec fn game_over_spec(b: Board) -> bool {
    let p = b.position();
    ||| in_check(p.squares, p.turn) && no_legal_moves(p)
    ||| !in_check(p.squares, p.turn) && no_legal_moves(p)
    ||| insufficient_material_spec(p.squares)
    ||| repetitions_spec(b.history(), b.keys(), b.stored_hash(), b.history().len() as int) >= 3
    ||| p.halfmove >= 100
}

/// Whether the game on the board has ended, one way or another; no more moves are
/// taken once it has.
pub fn game_is_over(board: &Board) -> (r: bool)
    requires
        board.wf(),
        board.history().len() < usize::MAX,
    ensures
        r == game_over_spec(*board),
{
    board.is_checkmate() || board.is_stalemate() || board.insufficient_material() || board.is_threefold_repetition()
        || board.is_fifty_move_draw()
}

/// The squares the moves of `moves` that start on `from` go to, in the order of the list.
pub open spec fn targets_spec(moves: Seq<Move>, from: u8) -> Seq<u8>
    decreases moves.len(),
{
    if moves.len() == 0 {
        Seq::empty()
    } else {
        let rest = targets_spec(moves.drop_last(), from);
        if moves.last().from == from {
            rest.push(moves.last().to)
        } else {
            rest
        }
    }
}

/// Where the piece picked up from `from` may legally go, so the board can mark those
/// squares: the destinations of the side to move's legal moves from that square.
pub fn targets_from(board: &Board, from: u8) -> (r: Vec<u8>)
    requires
        board.wf(),
    ensures
        r@ == targets_spec(legal_list(board.position()), from),
{
    let moves = board.legal_moves();
    proof {
        lemma_generated_is_legal_list(board.position(), moves@);
    }
    let mut targets: Vec<u8> = Vec::new();
    let mut i: usize = 0;
    while i < moves.len()
        invariant
            i <= moves@.len(),
            targets@ == targets_spec(moves@.take(i as int), from),
        decreases moves@.len() - i,
    {
        assert(moves@.take(i + 1).drop_last() =~= moves@.take(i as int));
        if moves[i].from == from {
            targets.push(moves[i].to);
        }
        i = i + 1;
    }
    assert(moves@.take(moves@.len() as int) =~= moves@);
    targets
}

/// How many of the first `n` squares hold a piece.
pub open spec fn pieces_on(sq: Seq<Option<Piece>>, n: int) -> nat
    decreases n,
{
    if n <= 0 {
        0
    } else {
        pieces_on(sq, n - 1) + if sq[n - 1] is Some { 1nat } else { 0nat }
    }
}

/// The name of a side as a label writes it.
pub open spec fn side_name(side: Color) -> Seq<char> {
    match side {
        Color::White => "White"@,
        Color::Black => "Black"@,
    }
}

/// The label of the position put aside as number `number`: its number, the side to
/// move and how many pieces stand on it, e.g. "#1 White - 32p".
pub open spec fn position_label_spec(number: nat, b: Board) -> Seq<char> {
    seq!['#'] + decimal_spec(number) + seq![' '] + side_name(b.position().turn) + " - "@ + decimal_spec(
        pieces_on(b.position().squares, 64),
    ) + "p"@
}

/// The label a position put aside is listed under.
pub fn position_label(number: usize, board: &Board) -> (r: String)
    requires
        board.wf(),
    ensures
        r@ == position_label_spec(number as nat, *board),
{
    proof {
        board.lemma_wf_squares();
    }
    let mut pieces: usize = 0;
    let mut square: u8 = 0;
    while square < 64
        invariant
            board.wf(),
            square <= 64,
            pieces == pieces_on(board.position().squares, square as int),
            pieces <= square,
        decreases 64 - square,
    {
        if board.piece_at(square).is_some() {
            pieces = pieces + 1;
        }
        square = square + 1;
    }
    let mut text = String::new();
    push_char(&mut text, '#');
    push_decimal(&mut text, number as u128);
    push_char(&mut text, ' ');
    match board.turn() {
        Color::White => push_text(&mut text, "White"),
        Color::Black => push_text(&mut text, "Black"),
    }
    push_text(&mut text, " - ");
    push_decimal(&mut text, pieces as u128);
    push_text(&mut text, "p");
    assert(text@ =~= position_label_spec(number as nat, *board));
    text
}

/// The label of the game saved as number `number`, `moves` moves long, e.g.
/// "Game #1 - 34 moves".
pub open spec fn game_label_spec(number: nat, moves: nat) -> Seq<char> {
    "Game #"@ + decimal_spec(number) + " - "@ + decimal_spec(moves) + " moves"@
}

/// The label a saved game is listed under.
pub fn game_label(number: usize, moves: usize) -> (r: String)
    ensures
        r@ == game_label_spec(number as nat, moves as nat),
{
    let mut text = String::new();
    push_text(&mut text, "Game #");
    push_decimal(&mut text, number as u128);
    push_text(&mut text, " - ");
    push_decimal(&mut text, moves as u128);
    push_text(&mut text, " moves");
    assert(text@ =~= game_label_spec(number as nat, moves as nat));
    text
}

} // verus!
