// Square numbering and the geometry every generator shares.
//
// A square is a plain index 0..64 with `index = rank * 8 + file`, so a1 = 0,
// h1 = 7, a8 = 56, h8 = 63.
use vstd::prelude::*;
use crate::board::piece::{Color, en_passant_rank_of};
use crate::text::push_char;

verus! {

pub open spec fn file_spec(square: int) -> int {
    square % 8
}

pub open spec fn rank_spec(square: int) -> int {
    square / 8
}

pub open spec fn on_board(file: int, rank: int) -> bool {
    0 <= file < 8 && 0 <= rank < 8
}

/// The square at (file, rank).
pub open spec fn index_of(file: int, rank: int) -> int {
    rank * 8 + file
}

/// One step away from `square`, or None when that step leaves the board.
pub open spec fn offset_spec(square: int, file_step: int, rank_step: int) -> Option<int> {
    if on_board(file_spec(square) + file_step, rank_spec(square) + rank_step) {
        Some(index_of(file_spec(square) + file_step, rank_spec(square) + rank_step))
    } else {
        None
    }
}

pub open spec fn sign(value: int) -> int {
    if value > 0 {
        1
    } else if value < 0 {
        -1
    } else {
        0
    }
}

pub open spec fn abs_spec(value: int) -> int {
    if value < 0 {
        -value
    } else {
        value
    }
}

/// Whether two different squares share a rank, a file or a diagonal.
pub open spec fn lines_up(from: int, to: int) -> bool {
    let df = file_spec(to) - file_spec(from);
    let dr = rank_spec(to) - rank_spec(from);
    from != to && (df == 0 || dr == 0 || abs_spec(df) == abs_spec(dr))
}

/// The single step that leads from one square towards another when they line up.
pub open spec fn direction_spec(from: int, to: int) -> Option<(int, int)> {
    if lines_up(from, to) {
        Some(
            (sign(file_spec(to) - file_spec(from)), sign(rank_spec(to) - rank_spec(from))),
        )
    } else {
        None
    }
}

/// How many steps apart two lined-up squares are.
pub open spec fn distance_spec(from: int, to: int) -> int {
    let df = abs_spec(file_spec(to) - file_spec(from));
    let dr = abs_spec(rank_spec(to) - rank_spec(from));
    if df > dr {
        df
    } else {
        dr
    }
}

/// `coordinate` moved `k` steps of `step` (which is -1, 0 or 1).
pub open spec fn walk(coordinate: int, step: int, k: int) -> int {
    if step > 0 {
        coordinate + k
    } else if step < 0 {
        coordinate - k
    } else {
        coordinate
    }
}

/// The square `k` steps from `from` along (file_step, rank_step).
pub open spec fn square_along(from: int, file_step: int, rank_step: int, k: int) -> int {
    index_of(walk(file_spec(from), file_step, k), walk(rank_spec(from), rank_step, k))
}

pub fn file_of(square: u8) -> (r: u8)
    ensures
        r == file_spec(square as int),
{
    square % 8
}

pub fn rank_of(square: u8) -> (r: u8)
    ensures
        r == rank_spec(square as int),
{
    square / 8
}

/// The character of a file, 'a' to 'h'.
pub open spec fn file_char(file: int) -> char {
    (97 + file) as char
}

/// The character of a rank, '1' to '8'.
pub open spec fn rank_char(rank: int) -> char {
    (49 + rank) as char
}

/// A square as it is written down, e.g. "e1".
pub open spec fn square_name_spec(square: int) -> Seq<char> {
    seq![file_char(file_spec(square)), rank_char(rank_spec(square))]
}

/// A square as it is written down, e.g. 4 -> "e1".
pub fn square_name(square: u8) -> (r: String)
    requires
        square < 64,
    ensures
        r@ == square_name_spec(square as int),
{
    let mut text = String::new();
    let file = (97 + file_of(square)) as char;
    let rank = (49 + rank_of(square)) as char;
    push_char(&mut text, file);
    push_char(&mut text, rank);
    assert(text@ =~= square_name_spec(square as int));
    text
}

/// The square a name like "e1" stands for, or None when it is not one.
pub open spec fn square_from_name_spec(text: Seq<char>) -> Option<int> {
    if text.len() == 2 && 'a' <= text[0] <= 'h' && '1' <= text[1] <= '8' {
        Some(index_of(text[0] as int - 97, text[1] as int - 49))
    } else {
        None
    }
}

pub fn square_from_chars(file: char, rank: char) -> (r: Option<u8>)
    ensures
        r matches Some(s) ==> s < 64,
        r.is_some() == ('a' <= file <= 'h' && '1' <= rank <= '8'),
        r matches Some(s) ==> s == index_of(file as int - 97, rank as int - 49),
{
    if !('a' <= file && file <= 'h') || !('1' <= rank && rank <= '8') {
        return None;
    }
    let f = (file as u32 - 97) as u8;
    let r = (rank as u32 - 49) as u8;
    Some(r * 8 + f)
}

pub fn square_from_name(text: &str) -> (r: Option<u8>)
    ensures
        r matches Some(s) ==> s < 64,
        r.is_some() == square_from_name_spec(text@).is_some(),
        r matches Some(s) ==> s == square_from_name_spec(text@).unwrap(),
{
    if text.unicode_len() != 2 {
        return None;
    }
    let file = text.get_char(0);
    let rank = text.get_char(1);
    square_from_chars(file, rank)
}

/// The square at (file, rank), or None when that is off the board.
pub fn square_at(file: i8, rank: i8) -> (r: Option<u8>)
    ensures
        r.is_some() == on_board(file as int, rank as int),
        r matches Some(s) ==> s == index_of(file as int, rank as int) && s < 64,
{
    if 0 <= file && file < 8 && 0 <= rank && rank < 8 {
        Some((rank * 8 + file) as u8)
    } else {
        None
    }
}

/// One step away from `square`, or None when that step leaves the board.
pub fn offset(square: u8, step: (i8, i8)) -> (r: Option<u8>)
    requires
        square < 64,
        -8 <= step.0 <= 8,
        -8 <= step.1 <= 8,
    ensures
        r matches Some(s) ==> s < 64,
        r.is_some() == offset_spec(square as int, step.0 as int, step.1 as int).is_some(),
        r matches Some(s) ==> s == offset_spec(square as int, step.0 as int, step.1 as int).unwrap(),
{
    let (file_step, rank_step) = step;
    square_at(file_of(square) as i8 + file_step, rank_of(square) as i8 + rank_step)
}

/// Every square from `from` in the given direction, up to the edge of the board,
/// `from` itself not among them.
pub fn ray(from: u8, step: (i8, i8)) -> (r: Vec<u8>)
    requires
        from < 64,
        -1 <= step.0 <= 1,
        -1 <= step.1 <= 1,
        step.0 != 0 || step.1 != 0,
    ensures
        forall|k: int| 0 <= k < r@.len() ==> r@[k] == square_along(from as int, step.0 as int, step.1 as int, k + 1),
        forall|k: int| 0 <= k < r@.len() ==> on_board(
            walk(file_spec(from as int), step.0 as int, k + 1),
            walk(rank_spec(from as int), step.1 as int, k + 1),
        ) && #[trigger] r@[k] < 64,
        !on_board(
            walk(file_spec(from as int), step.0 as int, r@.len() as int + 1),
            walk(rank_spec(from as int), step.1 as int, r@.len() as int + 1),
        ),
{
    let mut squares: Vec<u8> = Vec::new();
    let mut file: i8 = file_of(from) as i8;
    let mut rank: i8 = rank_of(from) as i8;
    let ghost f0 = file_spec(from as int);
    let ghost r0 = rank_spec(from as int);
    loop
        invariant
            from < 64,
            0 <= file < 8,
            0 <= rank < 8,
            -1 <= step.0 <= 1,
            -1 <= step.1 <= 1,
            step.0 != 0 || step.1 != 0,
            squares@.len() <= 7,
            file == walk(f0, step.0 as int, squares@.len() as int),
            rank == walk(r0, step.1 as int, squares@.len() as int),
            f0 == file_spec(from as int),
            r0 == rank_spec(from as int),
            forall|k: int| 0 <= k < squares@.len() ==> squares@[k] == square_along(from as int, step.0 as int, step.1 as int, k + 1),
            forall|k: int| 0 <= k < squares@.len() ==> on_board(walk(f0, step.0 as int, k + 1), walk(r0, step.1 as int, k + 1)) && #[trigger] squares@[k] < 64,
        decreases 8 - squares@.len(),
    {
        let next_file = file + step.0;
        let next_rank = rank + step.1;
        if !(0 <= next_file && next_file < 8 && 0 <= next_rank && next_rank < 8) {
            return squares;
        }
        proof {
            let n = squares@.len() as int;
            assert(next_file == walk(f0, step.0 as int, n + 1));
            assert(next_rank == walk(r0, step.1 as int, n + 1));
            assert(n + 1 <= 7) by {
                assert(0 <= f0 < 8 && 0 <= r0 < 8);
                if step.0 != 0 {
                    assert(walk(f0, step.0 as int, n + 1) == f0 + n + 1 || walk(f0, step.0 as int, n + 1) == f0 - n - 1);
                } else {
                    assert(walk(r0, step.1 as int, n + 1) == r0 + n + 1 || walk(r0, step.1 as int, n + 1) == r0 - n - 1);
                }
            }
        }
        let ghost before = squares@;
        squares.push((next_rank * 8 + next_file) as u8);
        proof {
            assert forall|k: int| 0 <= k < squares@.len() implies on_board(walk(f0, step.0 as int, k + 1), walk(r0, step.1 as int, k + 1)) && #[trigger] squares@[k] < 64 by {
                if k < before.len() {
                    assert(squares@[k] == before[k]);
                }
            }
        }
        file = next_file;
        rank = next_rank;
    }
}

/// The single step that leads from one square towards another, when the two share a
/// rank, a file or a diagonal - None when they do not line up or are the same square.
pub fn direction_between(from: u8, to: u8) -> (r: Option<(i8, i8)>)
    requires
        from < 64,
        to < 64,
    ensures
        r.is_some() == direction_spec(from as int, to as int).is_some(),
        r matches Some(d) ==> direction_spec(from as int, to as int) == Some((d.0 as int, d.1 as int)),
{
    let file_step = file_of(to) as i8 - file_of(from) as i8;
    let rank_step = rank_of(to) as i8 - rank_of(from) as i8;
    let file_abs = if file_step < 0 { -file_step } else { file_step };
    let rank_abs = if rank_step < 0 { -rank_step } else { rank_step };

    let lines = file_step == 0 || rank_step == 0 || file_abs == rank_abs;
    if !lines || (file_step == 0 && rank_step == 0) {
        return None;
    }
    let fs: i8 = if file_step > 0 { 1 } else if file_step < 0 { -1 } else { 0 };
    let rs: i8 = if rank_step > 0 { 1 } else if rank_step < 0 { -1 } else { 0 };
    Some((fs, rs))
}

/// The squares strictly between two squares, counted up from the lower one.
pub fn squares_between(a: u8, b: u8) -> (r: Vec<u8>)
    ensures
        r@.len() == (if a < b { b - a - 1 } else if b < a { a - b - 1 } else { 0 }),
        forall|k: int| 0 <= k < r@.len() ==> r@[k] == (if a < b { a } else { b }) + 1 + k,
{
    let (low, high) = if a < b { (a, b) } else { (b, a) };
    let mut squares: Vec<u8> = Vec::new();
    if high == low {
        return squares;
    }
    let mut square = low + 1;
    while square < high
        invariant
            low < high,
            low + 1 <= square <= high,
            squares@.len() == square - low - 1,
            forall|k: int| 0 <= k < squares@.len() ==> squares@[k] == low + 1 + k,
        decreases high - square,
    {
        squares.push(square);
        square = square + 1;
    }
    squares
}

/// Where the pawn being captured en passant stands: one rank behind the square it is
/// captured on, seen from the capturing side.
pub open spec fn en_passant_captured_spec(to: int, capturing_color: Color) -> int {
    match capturing_color {
        Color::White => to - 8,
        Color::Black => to + 8,
    }
}

pub fn en_passant_captured_square(to: u8, capturing_color: Color) -> (r: u8)
    requires
        8 <= to < 56,
    ensures
        r == en_passant_captured_spec(to as int, capturing_color),
{
    match capturing_color {
        Color::White => to - 8,
        Color::Black => to + 8,
    }
}

/// A square as a single bit, so a set of squares fits into one number.
pub fn bit(square: u8) -> (r: u64)
    requires
        square < 64,
    ensures
        r == 1u64 << square,
{
    1u64 << square
}

/// Whether a set of squares holds this one.
pub open spec fn has_bit(set: u64, square: int) -> bool {
    (set >> (square as u64)) & 1 == 1
}

pub open spec fn king_step(index: int) -> (int, int) {
    if index == 0 {
        (1, 0)
    } else if index == 1 {
        (1, 1)
    } else if index == 2 {
        (0, 1)
    } else if index == 3 {
        (-1, 1)
    } else if index == 4 {
        (-1, 0)
    } else if index == 5 {
        (-1, -1)
    } else if index == 6 {
        (0, -1)
    } else {
        (1, -1)
    }
}

pub fn king_steps() -> (r: [(i8, i8); 8])
    ensures
        forall|i: int| 0 <= i < 8 ==> (r@[i].0 as int, r@[i].1 as int) == #[trigger] king_step(i),
{
    [(1i8, 0i8), (1, 1), (0, 1), (-1, 1), (-1, 0), (-1, -1), (0, -1), (1, -1)]
}

pub open spec fn knight_step(index: int) -> (int, int) {
    if index == 0 {
        (1, 2)
    } else if index == 1 {
        (2, 1)
    } else if index == 2 {
        (2, -1)
    } else if index == 3 {
        (1, -2)
    } else if index == 4 {
        (-1, -2)
    } else if index == 5 {
        (-2, -1)
    } else if index == 6 {
        (-2, 1)
    } else {
        (-1, 2)
    }
}

pub fn knight_steps() -> (r: [(i8, i8); 8])
    ensures
        forall|i: int| 0 <= i < 8 ==> (r@[i].0 as int, r@[i].1 as int) == #[trigger] knight_step(i),
{
    [(1i8, 2i8), (2, 1), (2, -1), (1, -2), (-1, -2), (-2, -1), (-2, 1), (-1, 2)]
}

pub open spec fn diagonal_step(index: int) -> (int, int) {
    if index == 0 {
        (1, 1)
    } else if index == 1 {
        (1, -1)
    } else if index == 2 {
        (-1, 1)
    } else {
        (-1, -1)
    }
}

pub fn diagonal_steps() -> (r: [(i8, i8); 4])
    ensures
        forall|i: int| 0 <= i < 4 ==> (r@[i].0 as int, r@[i].1 as int) == #[trigger] diagonal_step(i),
{
    [(1i8, 1i8), (1, -1), (-1, 1), (-1, -1)]
}

pub open spec fn straight_step(index: int) -> (int, int) {
    if index == 0 {
        (1, 0)
    } else if index == 1 {
        (-1, 0)
    } else if index == 2 {
        (0, 1)
    } else {
        (0, -1)
    }
}

pub fn straight_steps() -> (r: [(i8, i8); 4])
    ensures
        forall|i: int| 0 <= i < 4 ==> (r@[i].0 as int, r@[i].1 as int) == #[trigger] straight_step(i),
{
    [(1i8, 0i8), (-1, 0), (0, 1), (0, -1)]
}

} // verus!
