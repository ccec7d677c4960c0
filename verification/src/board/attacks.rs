// The squares a piece attacks, as a set of squares packed into one number: bit `s` is
// set when square `s` is attacked. A slider is stopped by the first piece on each of its
// lines; that piece itself stays in the set, since it is the square the slider could
// capture on.
use vstd::prelude::*;
use crate::board::piece::{Color, pawn_direction_of};
use crate::board::square::{
    abs_spec, distance_spec, file_of, file_spec, has_bit, lines_up, rank_of, rank_spec, sign,
    square_along, walk,
};
use crate::board::rules::{abs_i8, lemma_walk_on_board, sign_i8};

verus! {

/// Setting bit `s` sets that bit and leaves every other one as it was.
pub proof fn lemma_set_bit(x: u64, s: u64, j: u64)
    requires
        s < 64,
        j < 64,
    ensures
        has_bit(x | (1u64 << s), j as int) == (has_bit(x, j as int) || j == s),
{
    assert((((x | (1u64 << s)) >> j) & 1 == 1) == (((x >> j) & 1 == 1) || j == s)) by (bit_vector)
        requires
            s < 64,
            j < 64,
    ;
}

/// The empty set holds no square.
pub proof fn lemma_empty_set(j: u64)
    requires
        j < 64,
    ensures
        !has_bit(0u64, j as int),
{
    assert(((0u64 >> j) & 1) != 1) by (bit_vector);
}

/// A knight on `from` attacks `to`.
pub open spec fn knight_reach(from: int, to: int) -> bool {
    let df = abs_spec(file_spec(to) - file_spec(from));
    let dr = abs_spec(rank_spec(to) - rank_spec(from));
    (df == 1 && dr == 2) || (df == 2 && dr == 1)
}

/// A king on `from` attacks `to`.
pub open spec fn king_reach(from: int, to: int) -> bool {
    from != to && abs_spec(file_spec(to) - file_spec(from)) <= 1 && abs_spec(rank_spec(to) - rank_spec(from)) <= 1
}

/// A pawn of `color` on `from` attacks `to`: one square diagonally forward.
pub open spec fn pawn_reach(from: int, to: int, color: Color) -> bool {
    rank_spec(to) - rank_spec(from) == pawn_direction_of(color) && abs_spec(file_spec(to) - file_spec(from)) == 1
}

/// A slider moving along diagonals (when `diagonal`) or files and ranks (when
/// `straight`) on `from` reaches `to`: nothing in `occupied` stands strictly between.
pub open spec fn slider_reach(occupied: u64, from: int, to: int, diagonal: bool, straight: bool) -> bool {
    let df = file_spec(to) - file_spec(from);
    let dr = rank_spec(to) - rank_spec(from);
    &&& lines_up(from, to)
    &&& ((diagonal && df != 0 && dr != 0) || (straight && (df == 0 || dr == 0)))
    &&& forall|k: int|
        1 <= k < distance_spec(from, to) ==> !has_bit(occupied, #[trigger] square_along(from, sign(df), sign(dr), k))
}

/// Whether nothing in `occupied` stands strictly between two lined-up squares.
fn clear_between(occupied: u64, from: u8, to: u8) -> (r: bool)
    requires
        from < 64,
        to < 64,
        lines_up(from as int, to as int),
    ensures
        r == forall|k: int|
            1 <= k < distance_spec(from as int, to as int) ==> !has_bit(
                occupied,
                #[trigger] square_along(
                    from as int,
                    sign(file_spec(to as int) - file_spec(from as int)),
                    sign(rank_spec(to as int) - rank_spec(from as int)),
                    k,
                ),
            ),
{
    let df = sign_i8(file_of(to) as i8 - file_of(from) as i8);
    let dr = sign_i8(rank_of(to) as i8 - rank_of(from) as i8);
    let distance = {
        let a = abs_i8(file_of(to) as i8 - file_of(from) as i8);
        let b = abs_i8(rank_of(to) as i8 - rank_of(from) as i8);
        if a > b { a } else { b }
    };
    let ghost f0 = file_spec(from as int);
    let ghost r0 = rank_spec(from as int);
    let mut file: i8 = file_of(from) as i8 + df;
    let mut rank: i8 = rank_of(from) as i8 + dr;
    let mut k: i8 = 1;
    while k < distance
        invariant
            from < 64,
            to < 64,
            lines_up(from as int, to as int),
            f0 == file_spec(from as int),
            r0 == rank_spec(from as int),
            0 <= f0 < 8,
            0 <= r0 < 8,
            df == sign(file_spec(to as int) - file_spec(from as int)),
            dr == sign(rank_spec(to as int) - rank_spec(from as int)),
            distance == distance_spec(from as int, to as int),
            1 <= k <= distance,
            distance <= 7,
            file == walk(f0, df as int, k as int),
            rank == walk(r0, dr as int, k as int),
            forall|j: int| 1 <= j < k ==> !has_bit(occupied, #[trigger] square_along(from as int, df as int, dr as int, j)),
        decreases distance - k,
    {
        proof {
            lemma_walk_on_board(from as int, to as int, k as int);
        }
        let square = (rank * 8 + file) as u64;
        assert(square == square_along(from as int, df as int, dr as int, k as int));
        if (occupied >> square) & 1 == 1 {
            return false;
        }
        file = file + df;
        rank = rank + dr;
        k = k + 1;
    }
    true
}

/// Which squares the piece reaches: 0 knight, 1 king, 2 white pawn, 3 black pawn,
/// 4 bishop, 5 rook, 6 queen.
pub open spec fn reach_of(kind: int, occupied: u64, from: int, to: int) -> bool {
    if kind == 0 {
        knight_reach(from, to)
    } else if kind == 1 {
        king_reach(from, to)
    } else if kind == 2 {
        pawn_reach(from, to, Color::White)
    } else if kind == 3 {
        pawn_reach(from, to, Color::Black)
    } else if kind == 4 {
        slider_reach(occupied, from, to, true, false)
    } else if kind == 5 {
        slider_reach(occupied, from, to, false, true)
    } else {
        slider_reach(occupied, from, to, true, true)
    }
}

fn reaches(kind: u8, occupied: u64, from: u8, to: u8) -> (r: bool)
    requires
        from < 64,
        to < 64,
    ensures
        r == reach_of(kind as int, occupied, from as int, to as int),
{
    let df = file_of(to) as i8 - file_of(from) as i8;
    let dr = rank_of(to) as i8 - rank_of(from) as i8;
    let adf = abs_i8(df);
    let adr = abs_i8(dr);
    if kind == 0 {
        (adf == 1 && adr == 2) || (adf == 2 && adr == 1)
    } else if kind == 1 {
        from != to && adf <= 1 && adr <= 1
    } else if kind == 2 {
        dr == 1 && adf == 1
    } else if kind == 3 {
        dr == -1 && adf == 1
    } else {
        let lines = from != to && (df == 0 || dr == 0 || adf == adr);
        if !lines {
            return false;
        }
        let shape = if kind == 4 {
            df != 0 && dr != 0
        } else if kind == 5 {
            df == 0 || dr == 0
        } else {
            true
        };
        shape && clear_between(occupied, from, to)
    }
}

/// The set of every square the piece of `kind` on `from` reaches.
fn attack_set(kind: u8, occupied: u64, from: u8) -> (r: u64)
    requires
        from < 64,
    ensures
        forall|to: int| 0 <= to < 64 ==> #[trigger] has_bit(r, to) == reach_of(kind as int, occupied, from as int, to),
{
    let mut set: u64 = 0;
    let mut to: u8 = 0;
    proof {
        lemma_start_empty();
    }
    while to < 64
        invariant
            from < 64,
            to <= 64,
            forall|j: int| 0 <= j < to ==> #[trigger] has_bit(set, j) == reach_of(kind as int, occupied, from as int, j),
            forall|j: int| to <= j < 64 ==> !#[trigger] has_bit(set, j),
        decreases 64 - to,
    {
        if reaches(kind, occupied, from, to) {
            let ghost before = set;
            set = set | (1u64 << to);
            proof {
                assert forall|j: int| 0 <= j < 64 implies #[trigger] has_bit(set, j) == (has_bit(before, j) || j == to) by {
                    lemma_set_bit(before, to as u64, j as u64);
                }
            }
        }
        to = to + 1;
    }
    set
}

proof fn lemma_start_empty()
    ensures
        forall|j: int| 0 <= j < 64 ==> !#[trigger] has_bit(0u64, j),
{
    assert forall|j: int| 0 <= j < 64 implies !#[trigger] has_bit(0u64, j) by {
        lemma_empty_set(j as u64);
    }
}

pub fn knight_attacks(from: u8) -> (r: u64)
    requires
        from < 64,
    ensures
        forall|to: int| 0 <= to < 64 ==> #[trigger] has_bit(r, to) == knight_reach(from as int, to),
{
    attack_set(0, 0, from)
}

pub fn king_attacks(from: u8) -> (r: u64)
    requires
        from < 64,
    ensures
        forall|to: int| 0 <= to < 64 ==> #[trigger] has_bit(r, to) == king_reach(from as int, to),
{
    attack_set(1, 0, from)
}

/// The two squares a pawn of this color captures on, whether or not anything is there.
pub fn pawn_attacks(from: u8, color: Color) -> (r: u64)
    requires
        from < 64,
    ensures
        forall|to: int| 0 <= to < 64 ==> #[trigger] has_bit(r, to) == pawn_reach(from as int, to, color),
{
    match color {
        Color::White => attack_set(2, 0, from),
        Color::Black => attack_set(3, 0, from),
    }
}

pub fn bishop_attacks(from: u8, occupied: u64) -> (r: u64)
    requires
        from < 64,
    ensures
        forall|to: int| 0 <= to < 64 ==> #[trigger] has_bit(r, to) == slider_reach(occupied, from as int, to, true, false),
{
    attack_set(4, occupied, from)
}

pub fn rook_attacks(from: u8, occupied: u64) -> (r: u64)
    requires
        from < 64,
    ensures
        forall|to: int| 0 <= to < 64 ==> #[trigger] has_bit(r, to) == slider_reach(occupied, from as int, to, false, true),
{
    attack_set(5, occupied, from)
}

pub fn queen_attacks(from: u8, occupied: u64) -> (r: u64)
    requires
        from < 64,
    ensures
        forall|to: int| 0 <= to < 64 ==> #[trigger] has_bit(r, to) == slider_reach(occupied, from as int, to, true, true),
{
    attack_set(6, occupied, from)
}

/// A queen attacks exactly what a bishop and a rook on its square attack together.
pub proof fn law_queen_is_bishop_and_rook(occupied: u64, from: int, to: int)
    ensures
        slider_reach(occupied, from, to, true, true) == (slider_reach(occupied, from, to, true, false) || slider_reach(
            occupied,
            from,
            to,
            false,
            true,
        )),
{
}

/// Two sets that agree on every square are the same set.
pub proof fn lemma_sets_agree(a: u64, b: u64)
    requires
        forall|j: int| 0 <= j < 64 ==> #[trigger] has_bit(a, j) == has_bit(b, j),
    ensures
        a == b,
{
    assert(has_bit(a, 0) == has_bit(b, 0));
    assert(has_bit(a, 1) == has_bit(b, 1));
    assert(has_bit(a, 2) == has_bit(b, 2));
    assert(has_bit(a, 3) == has_bit(b, 3));
    assert(has_bit(a, 4) == has_bit(b, 4));
    assert(has_bit(a, 5) == has_bit(b, 5));
    assert(has_bit(a, 6) == has_bit(b, 6));
    assert(has_bit(a, 7) == has_bit(b, 7));
    assert(has_bit(a, 8) == has_bit(b, 8));
    assert(has_bit(a, 9) == has_bit(b, 9));
    assert(has_bit(a, 10) == has_bit(b, 10));
    assert(has_bit(a, 11) == has_bit(b, 11));
    assert(has_bit(a, 12) == has_bit(b, 12));
    assert(has_bit(a, 13) == has_bit(b, 13));
    assert(has_bit(a, 14) == has_bit(b, 14));
    assert(has_bit(a, 15) == has_bit(b, 15));
    assert(has_bit(a, 16) == has_bit(b, 16));
    assert(has_bit(a, 17) == has_bit(b, 17));
    assert(has_bit(a, 18) == has_bit(b, 18));
    assert(has_bit(a, 19) == has_bit(b, 19));
    assert(has_bit(a, 20) == has_bit(b, 20));
    assert(has_bit(a, 21) == has_bit(b, 21));
    assert(has_bit(a, 22) == has_bit(b, 22));
    assert(has_bit(a, 23) == has_bit(b, 23));
    assert(has_bit(a, 24) == has_bit(b, 24));
    assert(has_bit(a, 25) == has_bit(b, 25));
    assert(has_bit(a, 26) == has_bit(b, 26));
    assert(has_bit(a, 27) == has_bit(b, 27));
    assert(has_bit(a, 28) == has_bit(b, 28));
    assert(has_bit(a, 29) == has_bit(b, 29));
    assert(has_bit(a, 30) == has_bit(b, 30));
    assert(has_bit(a, 31) == has_bit(b, 31));
    assert(has_bit(a, 32) == has_bit(b, 32));
    assert(has_bit(a, 33) == has_bit(b, 33));
    assert(has_bit(a, 34) == has_bit(b, 34));
    assert(has_bit(a, 35) == has_bit(b, 35));
    assert(has_bit(a, 36) == has_bit(b, 36));
    assert(has_bit(a, 37) == has_bit(b, 37));
    assert(has_bit(a, 38) == has_bit(b, 38));
    assert(has_bit(a, 39) == has_bit(b, 39));
    assert(has_bit(a, 40) == has_bit(b, 40));
    assert(has_bit(a, 41) == has_bit(b, 41));
    assert(has_bit(a, 42) == has_bit(b, 42));
    assert(has_bit(a, 43) == has_bit(b, 43));
    assert(has_bit(a, 44) == has_bit(b, 44));
    assert(has_bit(a, 45) == has_bit(b, 45));
    assert(has_bit(a, 46) == has_bit(b, 46));
    assert(has_bit(a, 47) == has_bit(b, 47));
    assert(has_bit(a, 48) == has_bit(b, 48));
    assert(has_bit(a, 49) == has_bit(b, 49));
    assert(has_bit(a, 50) == has_bit(b, 50));
    assert(has_bit(a, 51) == has_bit(b, 51));
    assert(has_bit(a, 52) == has_bit(b, 52));
    assert(has_bit(a, 53) == has_bit(b, 53));
    assert(has_bit(a, 54) == has_bit(b, 54));
    assert(has_bit(a, 55) == has_bit(b, 55));
    assert(has_bit(a, 56) == has_bit(b, 56));
    assert(has_bit(a, 57) == has_bit(b, 57));
    assert(has_bit(a, 58) == has_bit(b, 58));
    assert(has_bit(a, 59) == has_bit(b, 59));
    assert(has_bit(a, 60) == has_bit(b, 60));
    assert(has_bit(a, 61) == has_bit(b, 61));
    assert(has_bit(a, 62) == has_bit(b, 62));
    assert(has_bit(a, 63) == has_bit(b, 63));
    assert(a == b) by (bit_vector)
        requires
            ((a >> 0u64) & 1 == 1) == ((b >> 0u64) & 1 == 1),
            ((a >> 1u64) & 1 == 1) == ((b >> 1u64) & 1 == 1),
            ((a >> 2u64) & 1 == 1) == ((b >> 2u64) & 1 == 1),
            ((a >> 3u64) & 1 == 1) == ((b >> 3u64) & 1 == 1),
            ((a >> 4u64) & 1 == 1) == ((b >> 4u64) & 1 == 1),
            ((a >> 5u64) & 1 == 1) == ((b >> 5u64) & 1 == 1),
            ((a >> 6u64) & 1 == 1) == ((b >> 6u64) & 1 == 1),
            ((a >> 7u64) & 1 == 1) == ((b >> 7u64) & 1 == 1),
            ((a >> 8u64) & 1 == 1) == ((b >> 8u64) & 1 == 1),
            ((a >> 9u64) & 1 == 1) == ((b >> 9u64) & 1 == 1),
            ((a >> 10u64) & 1 == 1) == ((b >> 10u64) & 1 == 1),
            ((a >> 11u64) & 1 == 1) == ((b >> 11u64) & 1 == 1),
            ((a >> 12u64) & 1 == 1) == ((b >> 12u64) & 1 == 1),
            ((a >> 13u64) & 1 == 1) == ((b >> 13u64) & 1 == 1),
            ((a >> 14u64) & 1 == 1) == ((b >> 14u64) & 1 == 1),
            ((a >> 15u64) & 1 == 1) == ((b >> 15u64) & 1 == 1),
            ((a >> 16u64) & 1 == 1) == ((b >> 16u64) & 1 == 1),
            ((a >> 17u64) & 1 == 1) == ((b >> 17u64) & 1 == 1),
            ((a >> 18u64) & 1 == 1) == ((b >> 18u64) & 1 == 1),
            ((a >> 19u64) & 1 == 1) == ((b >> 19u64) & 1 == 1),
            ((a >> 20u64) & 1 == 1) == ((b >> 20u64) & 1 == 1),
            ((a >> 21u64) & 1 == 1) == ((b >> 21u64) & 1 == 1),
            ((a >> 22u64) & 1 == 1) == ((b >> 22u64) & 1 == 1),
            ((a >> 23u64) & 1 == 1) == ((b >> 23u64) & 1 == 1),
            ((a >> 24u64) & 1 == 1) == ((b >> 24u64) & 1 == 1),
            ((a >> 25u64) & 1 == 1) == ((b >> 25u64) & 1 == 1),
            ((a >> 26u64) & 1 == 1) == ((b >> 26u64) & 1 == 1),
            ((a >> 27u64) & 1 == 1) == ((b >> 27u64) & 1 == 1),
            ((a >> 28u64) & 1 == 1) == ((b >> 28u64) & 1 == 1),
            ((a >> 29u64) & 1 == 1) == ((b >> 29u64) & 1 == 1),
            ((a >> 30u64) & 1 == 1) == ((b >> 30u64) & 1 == 1),
            ((a >> 31u64) & 1 == 1) == ((b >> 31u64) & 1 == 1),
            ((a >> 32u64) & 1 == 1) == ((b >> 32u64) & 1 == 1),
            ((a >> 33u64) & 1 == 1) == ((b >> 33u64) & 1 == 1),
            ((a >> 34u64) & 1 == 1) == ((b >> 34u64) & 1 == 1),
            ((a >> 35u64) & 1 == 1) == ((b >> 35u64) & 1 == 1),
            ((a >> 36u64) & 1 == 1) == ((b >> 36u64) & 1 == 1),
            ((a >> 37u64) & 1 == 1) == ((b >> 37u64) & 1 == 1),
            ((a >> 38u64) & 1 == 1) == ((b >> 38u64) & 1 == 1),
            ((a >> 39u64) & 1 == 1) == ((b >> 39u64) & 1 == 1),
            ((a >> 40u64) & 1 == 1) == ((b >> 40u64) & 1 == 1),
            ((a >> 41u64) & 1 == 1) == ((b >> 41u64) & 1 == 1),
            ((a >> 42u64) & 1 == 1) == ((b >> 42u64) & 1 == 1),
            ((a >> 43u64) & 1 == 1) == ((b >> 43u64) & 1 == 1),
            ((a >> 44u64) & 1 == 1) == ((b >> 44u64) & 1 == 1),
            ((a >> 45u64) & 1 == 1) == ((b >> 45u64) & 1 == 1),
            ((a >> 46u64) & 1 == 1) == ((b >> 46u64) & 1 == 1),
            ((a >> 47u64) & 1 == 1) == ((b >> 47u64) & 1 == 1),
            ((a >> 48u64) & 1 == 1) == ((b >> 48u64) & 1 == 1),
            ((a >> 49u64) & 1 == 1) == ((b >> 49u64) & 1 == 1),
            ((a >> 50u64) & 1 == 1) == ((b >> 50u64) & 1 == 1),
            ((a >> 51u64) & 1 == 1) == ((b >> 51u64) & 1 == 1),
            ((a >> 52u64) & 1 == 1) == ((b >> 52u64) & 1 == 1),
            ((a >> 53u64) & 1 == 1) == ((b >> 53u64) & 1 == 1),
            ((a >> 54u64) & 1 == 1) == ((b >> 54u64) & 1 == 1),
            ((a >> 55u64) & 1 == 1) == ((b >> 55u64) & 1 == 1),
            ((a >> 56u64) & 1 == 1) == ((b >> 56u64) & 1 == 1),
            ((a >> 57u64) & 1 == 1) == ((b >> 57u64) & 1 == 1),
            ((a >> 58u64) & 1 == 1) == ((b >> 58u64) & 1 == 1),
            ((a >> 59u64) & 1 == 1) == ((b >> 59u64) & 1 == 1),
            ((a >> 60u64) & 1 == 1) == ((b >> 60u64) & 1 == 1),
            ((a >> 61u64) & 1 == 1) == ((b >> 61u64) & 1 == 1),
            ((a >> 62u64) & 1 == 1) == ((b >> 62u64) & 1 == 1),
            ((a >> 63u64) & 1 == 1) == ((b >> 63u64) & 1 == 1),
    ;
}

/// A square is in the union of two sets when it is in either.
pub proof fn lemma_union_bit(a: u64, b: u64, j: u64)
    requires
        j < 64,
    ensures
        has_bit(a | b, j as int) == (has_bit(a, j as int) || has_bit(b, j as int)),
{
    assert((((a | b) >> j) & 1 == 1) == (((a >> j) & 1 == 1) || ((b >> j) & 1 == 1))) by (bit_vector)
        requires
            j < 64,
    ;
}

/// As sets of squares: what a queen attacks is what a bishop attacks together with what a
/// rook attacks, from the same square over the same occupancy.
pub proof fn law_queen_set_is_bishop_set_or_rook_set(occupied: u64, from: int, queen: u64, bishop: u64, rook: u64)
    requires
        0 <= from < 64,
        forall|to: int| 0 <= to < 64 ==> #[trigger] has_bit(queen, to) == slider_reach(occupied, from, to, true, true),
        forall|to: int| 0 <= to < 64 ==> #[trigger] has_bit(bishop, to) == slider_reach(occupied, from, to, true, false),
        forall|to: int| 0 <= to < 64 ==> #[trigger] has_bit(rook, to) == slider_reach(occupied, from, to, false, true),
    ensures
        queen == bishop | rook,
{
    assert forall|j: int| 0 <= j < 64 implies #[trigger] has_bit(queen, j) == has_bit(bishop | rook, j) by {
        lemma_union_bit(bishop, rook, j as u64);
        law_queen_is_bishop_and_rook(occupied, from, j);
        assert(has_bit(bishop, j) == slider_reach(occupied, from, j, true, false));
        assert(has_bit(rook, j) == slider_reach(occupied, from, j, false, true));
    }
    lemma_sets_agree(queen, bishop | rook);
}

} // verus!
