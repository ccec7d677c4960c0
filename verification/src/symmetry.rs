// The evaluation does not care which side is which: a position seen from the other side
// of the board, every piece changing color, scores the same for the side to move.
//
// Each part of the evaluation is a sum over the squares; mirroring the board only
// reorders those sums (rank by rank, files kept) and negates every term.
use vstd::prelude::*;
use crate::board::piece::{Color, Piece, PieceType, opponent_of, group_piece, lemma_piece_roundtrip};
use crate::board::rules::valid_squares;
use crate::board::square::{abs_spec, file_spec, rank_spec};
use crate::board::status::{count_of, insufficient_material_spec, phase_sum, piece_count};
use crate::evaluate::{
    ahead, bishop_pair_spec, clamped_phase, evaluate_spec, isolated, king_score_spec, kings_of, lowest_from, passed,
    pawn_sum, pawn_table_of, pawn_term, piece_term, psqt_sum, structure_sum, structure_term, table_index,
};
use crate::board::piece::phase_weight_of;

verus! {

broadcast use group_piece;

/// The square a square is seen on from the other side: the same file, the rank counted
/// from the other end.
pub open spec fn mirror_square(square: int) -> int {
    (7 - rank_spec(square)) * 8 + file_spec(square)
}

/// The same piece in the other color.
pub open spec fn flip(occupant: Option<Piece>) -> Option<Piece> {
    match occupant {
        Some(p) => Some(Piece::of(p.kind(), opponent_of(p.side()))),
        None => None,
    }
}

/// The board seen from the other side: every piece changes color and moves to the
/// mirror square of its own.
pub open spec fn mirrored(sq: Seq<Option<Piece>>) -> Seq<Option<Piece>> {
    Seq::new(64, |i: int| flip(sq[mirror_square(i)]))
}

/// The first `n` values of `f`, added up.
pub open spec fn total(f: spec_fn(int) -> int, n: int) -> int
    decreases n,
{
    if n <= 0 {
        0
    } else {
        total(f, n - 1) + f(n - 1)
    }
}

/// The first `c` values of `f` on rank `r`, added up.
pub open spec fn row_total(f: spec_fn(int) -> int, r: int, c: int) -> int
    decreases c,
{
    if c <= 0 {
        0
    } else {
        row_total(f, r, c - 1) + f(8 * r + c - 1)
    }
}

/// The whole ranks below rank `r`, added up rank by rank.
pub open spec fn rows(f: spec_fn(int) -> int, r: int) -> int
    decreases r,
{
    if r <= 0 {
        0
    } else {
        rows(f, r - 1) + row_total(f, r - 1, 8)
    }
}

/// Mirroring a square keeps its file and turns its rank around, and doing it twice gives
/// the square back.
pub proof fn lemma_mirror_square(s: int)
    requires
        0 <= s < 64,
    ensures
        0 <= mirror_square(s) < 64,
        file_spec(mirror_square(s)) == file_spec(s),
        rank_spec(mirror_square(s)) == 7 - rank_spec(s),
        mirror_square(mirror_square(s)) == s,
{
    assert(s == rank_spec(s) * 8 + file_spec(s));
}

/// Sums that agree term by term agree.
pub proof fn lemma_total_ext(f: spec_fn(int) -> int, g: spec_fn(int) -> int, n: int)
    requires
        forall|i: int| 0 <= i < n ==> #[trigger] f(i) == g(i),
    ensures
        total(f, n) == total(g, n),
    decreases n,
{
    if n > 0 {
        lemma_total_ext(f, g, n - 1);
    }
}

/// A sum reaches a rank part way: the whole ranks below and the start of this one.
proof fn lemma_total_rows(f: spec_fn(int) -> int, r: int, c: int)
    requires
        0 <= r,
        0 <= c <= 8,
    ensures
        total(f, 8 * r + c) == rows(f, r) + row_total(f, r, c),
    decreases r, c,
{
    if c > 0 {
        lemma_total_rows(f, r, c - 1);
    } else if r > 0 {
        lemma_total_rows(f, r - 1, 8);
    }
}

/// A rank of the mirrored values is the opposite rank of the values.
proof fn lemma_row_mirror(f: spec_fn(int) -> int, r: int, c: int)
    requires
        0 <= r < 8,
        0 <= c <= 8,
    ensures
        row_total(|i: int| f(mirror_square(i)), r, c) == row_total(f, 7 - r, c),
    decreases c,
{
    if c > 0 {
        lemma_row_mirror(f, r, c - 1);
        let s = 8 * r + c - 1;
        assert(rank_spec(s) == r && file_spec(s) == c - 1);
        assert(mirror_square(s) == 8 * (7 - r) + c - 1);
    }
}

/// Adding up the values of the mirror squares adds up the same values.
pub proof fn lemma_total_mirror(f: spec_fn(int) -> int)
    ensures
        total(|i: int| f(mirror_square(i)), 64) == total(f, 64),
{
    let g = |i: int| f(mirror_square(i));
    lemma_total_rows(f, 8, 0);
    lemma_total_rows(g, 8, 0);
    lemma_row_mirror(f, 0, 8);
    lemma_row_mirror(f, 1, 8);
    lemma_row_mirror(f, 2, 8);
    lemma_row_mirror(f, 3, 8);
    lemma_row_mirror(f, 4, 8);
    lemma_row_mirror(f, 5, 8);
    lemma_row_mirror(f, 6, 8);
    lemma_row_mirror(f, 7, 8);
    reveal_with_fuel(rows, 9);
    assert(row_total(g, 0, 8) == row_total(f, 7, 8));
    assert(row_total(g, 1, 8) == row_total(f, 6, 8));
    assert(row_total(g, 2, 8) == row_total(f, 5, 8));
    assert(row_total(g, 3, 8) == row_total(f, 4, 8));
    assert(row_total(g, 4, 8) == row_total(f, 3, 8));
    assert(row_total(g, 5, 8) == row_total(f, 2, 8));
    assert(row_total(g, 6, 8) == row_total(f, 1, 8));
    assert(row_total(g, 7, 8) == row_total(f, 0, 8));
}

/// Negating every term negates the sum.
pub proof fn lemma_total_neg(f: spec_fn(int) -> int, n: int)
    ensures
        total(|i: int| -f(i), n) == -total(f, n),
    decreases n,
{
    if n > 0 {
        lemma_total_neg(f, n - 1);
    }
}

/// A sum whose terms are the negated terms of another at the mirror squares is that sum
/// negated.
pub proof fn lemma_mirror_negates(h: spec_fn(int) -> int, k: spec_fn(int) -> int)
    requires
        forall|i: int| 0 <= i < 64 ==> #[trigger] k(i) == -h(mirror_square(i)),
    ensures
        total(k, 64) == -total(h, 64),
{
    let g = |i: int| h(mirror_square(i));
    lemma_total_ext(k, |i: int| -g(i), 64);
    lemma_total_neg(g, 64);
    lemma_total_mirror(h);
}

/// A sum whose terms are the terms of another at the mirror squares is that sum.
pub proof fn lemma_mirror_keeps(h: spec_fn(int) -> int, k: spec_fn(int) -> int)
    requires
        forall|i: int| 0 <= i < 64 ==> #[trigger] k(i) == h(mirror_square(i)),
    ensures
        total(k, 64) == total(h, 64),
{
    lemma_total_ext(k, |i: int| h(mirror_square(i)), 64);
    lemma_total_mirror(h);
}

proof fn lemma_psqt_total(sq: Seq<Option<Piece>>, n: int)
    ensures
        psqt_sum(sq, n) == total(|i: int| piece_term(sq[i], i), n),
    decreases n,
{
    if n > 0 {
        lemma_psqt_total(sq, n - 1);
    }
}

proof fn lemma_pawn_total(sq: Seq<Option<Piece>>, kings: (Option<int>, Option<int>), phase: int, n: int)
    ensures
        pawn_sum(sq, kings, phase, n) == total(|i: int| pawn_term(sq[i], i, kings, phase), n),
    decreases n,
{
    if n > 0 {
        lemma_pawn_total(sq, kings, phase, n - 1);
    }
}

proof fn lemma_structure_total(sq: Seq<Option<Piece>>, n: int)
    ensures
        structure_sum(sq, n) == total(|i: int| structure_term(sq, i), n),
    decreases n,
{
    if n > 0 {
        lemma_structure_total(sq, n - 1);
    }
}

/// The phase weight of what stands on a square.
pub open spec fn weight(occupant: Option<Piece>) -> int {
    match occupant {
        Some(p) => phase_weight_of(p.kind()),
        None => 0,
    }
}

proof fn lemma_phase_total(sq: Seq<Option<Piece>>, n: int)
    ensures
        phase_sum(sq, n) == total(|i: int| weight(sq[i]), n),
    decreases n,
{
    if n > 0 {
        lemma_phase_total(sq, n - 1);
    }
}

/// One when the square holds this piece.
pub open spec fn holds_piece(occupant: Option<Piece>, piece: Piece) -> int {
    if occupant == Some(piece) { 1 } else { 0 }
}

proof fn lemma_count_total(sq: Seq<Option<Piece>>, piece: Piece, n: int)
    ensures
        count_of(sq, piece, n) == total(|i: int| holds_piece(sq[i], piece), n),
    decreases n,
{
    if n > 0 {
        lemma_count_total(sq, piece, n - 1);
    }
}

/// A piece flipped is the same kind in the other color, and a square of the mirrored
/// board holds a given piece exactly when its mirror square holds that piece in the
/// other color.
proof fn lemma_flip(o: Option<Piece>)
    requires
        o matches Some(p) ==> p.valid(),
    ensures
        o matches Some(p) ==> (flip(o) matches Some(q) && q.valid() && q.kind() == p.kind() && q.side() == opponent_of(
            p.side(),
        )),
        o is None ==> flip(o) is None,
        forall|t: PieceType, c: Color| #[trigger] holds_piece(flip(o), Piece::of(t, opponent_of(c))) == holds_piece(o, Piece::of(t, c)),
{
    match o {
        Some(p) => {
            assert(p == Piece::of(p.kind(), p.side()));
            lemma_piece_roundtrip(p.kind(), opponent_of(p.side()));
            assert forall|t: PieceType, c: Color| #[trigger] holds_piece(flip(o), Piece::of(t, opponent_of(c))) == holds_piece(o, Piece::of(t, c)) by {
                lemma_piece_roundtrip(t, opponent_of(c));
                lemma_piece_roundtrip(t, c);
                let q = Piece::of(p.kind(), opponent_of(p.side()));
                if q == Piece::of(t, opponent_of(c)) {
                    assert(q.kind() == t && q.side() == opponent_of(c));
                    assert(p.side() == c);
                }
                if p == Piece::of(t, c) {
                    assert(p.kind() == t && p.side() == c);
                }
            }
        },
        None => {},
    }
}

/// The squares a piece's table is read at agree for a square and its mirror square,
/// the color turned around.
proof fn lemma_table_index_mirror(i: int, c: Color)
    requires
        0 <= i < 64,
    ensures
        table_index(i, opponent_of(c)) == table_index(mirror_square(i), c),
{
    lemma_mirror_square(i);
    assert(i == rank_spec(i) * 8 + file_spec(i));
}

/// The knights, bishops, rooks and queens of the mirrored board are worth the negation.
proof fn lemma_psqt_mirror(sq: Seq<Option<Piece>>)
    requires
        valid_squares(sq),
    ensures
        psqt_sum(mirrored(sq), 64) == -psqt_sum(sq, 64),
{
    let m = mirrored(sq);
    lemma_psqt_total(m, 64);
    lemma_psqt_total(sq, 64);
    let h = |j: int| piece_term(sq[j], j);
    let k = |i: int| piece_term(m[i], i);
    assert forall|i: int| 0 <= i < 64 implies #[trigger] k(i) == -h(mirror_square(i)) by {
        lemma_mirror_square(i);
        let o = sq[mirror_square(i)];
        lemma_flip(o);
        match o {
            Some(p) => lemma_table_index_mirror(i, p.side()),
            None => {},
        }
    }
    lemma_mirror_negates(h, k);
}

/// Where a king stands, seen from the other side.
pub open spec fn mirror_opt(square: Option<int>) -> Option<int> {
    match square {
        Some(s) => Some(mirror_square(s)),
        None => None,
    }
}

/// The pawns of the mirrored board, each side's blended by its own king's wing, are
/// worth the negation.
proof fn lemma_pawns_mirror(sq: Seq<Option<Piece>>, kings: (Option<int>, Option<int>), phase: int)
    requires
        valid_squares(sq),
        kings.0 matches Some(s) ==> 0 <= s < 64,
        kings.1 matches Some(s) ==> 0 <= s < 64,
    ensures
        pawn_sum(mirrored(sq), (mirror_opt(kings.1), mirror_opt(kings.0)), phase, 64) == -pawn_sum(sq, kings, phase, 64),
{
    let m = mirrored(sq);
    let kings2 = (mirror_opt(kings.1), mirror_opt(kings.0));
    lemma_pawn_total(m, kings2, phase, 64);
    lemma_pawn_total(sq, kings, phase, 64);
    match kings.0 {
        Some(s) => lemma_mirror_square(s),
        None => {},
    }
    match kings.1 {
        Some(s) => lemma_mirror_square(s),
        None => {},
    }
    assert(pawn_table_of(mirror_opt(kings.0)) == pawn_table_of(kings.0));
    assert(pawn_table_of(mirror_opt(kings.1)) == pawn_table_of(kings.1));
    let h = |j: int| pawn_term(sq[j], j, kings, phase);
    let k = |i: int| pawn_term(m[i], i, kings2, phase);
    assert forall|i: int| 0 <= i < 64 implies #[trigger] k(i) == -h(mirror_square(i)) by {
        lemma_mirror_square(i);
        let o = sq[mirror_square(i)];
        lemma_flip(o);
        match o {
            Some(p) => lemma_table_index_mirror(i, p.side()),
            None => {},
        }
    }
    lemma_mirror_negates(h, k);
}

/// A mirrored square holds the pawn of one color exactly when its mirror square holds the
/// pawn of the other.
proof fn lemma_mirrored_at(sq: Seq<Option<Piece>>, j: int, t: PieceType, c: Color)
    requires
        valid_squares(sq),
        0 <= j < 64,
    ensures
        (mirrored(sq)[j] == Some(Piece::of(t, c))) == (sq[mirror_square(j)] == Some(Piece::of(t, opponent_of(c)))),
{
    lemma_mirror_square(j);
    lemma_flip(sq[mirror_square(j)]);
    assert(holds_piece(flip(sq[mirror_square(j)]), Piece::of(t, opponent_of(opponent_of(c)))) == holds_piece(
        sq[mirror_square(j)],
        Piece::of(t, opponent_of(c)),
    ));
    assert(opponent_of(opponent_of(c)) == c);
}

/// A pawn is isolated on the mirrored board exactly when its counterpart is.
proof fn lemma_isolated_mirror(sq: Seq<Option<Piece>>, i: int, c: Color)
    requires
        valid_squares(sq),
        0 <= i < 64,
    ensures
        isolated(mirrored(sq), i, opponent_of(c)) == isolated(sq, mirror_square(i), c),
{
    let m = mirrored(sq);
    lemma_mirror_square(i);
    assert(opponent_of(opponent_of(c)) == c);
    if isolated(m, i, opponent_of(c)) {
        assert forall|j: int| 0 <= j < 64 && abs_spec(file_spec(j) - file_spec(mirror_square(i))) == 1 implies #[trigger] sq[j]
            != Some(Piece::of(PieceType::Pawn, c)) by {
            lemma_mirror_square(j);
            lemma_mirrored_at(sq, mirror_square(j), PieceType::Pawn, opponent_of(c));
            assert(m[mirror_square(j)] != Some(Piece::of(PieceType::Pawn, opponent_of(c))));
        }
    }
    if isolated(sq, mirror_square(i), c) {
        assert forall|j: int| 0 <= j < 64 && abs_spec(file_spec(j) - file_spec(i)) == 1 implies #[trigger] m[j] != Some(
            Piece::of(PieceType::Pawn, opponent_of(c)),
        ) by {
            lemma_mirror_square(j);
            lemma_mirrored_at(sq, j, PieceType::Pawn, opponent_of(c));
            assert(sq[mirror_square(j)] != Some(Piece::of(PieceType::Pawn, c)));
        }
    }
}

/// A pawn is passed on the mirrored board exactly when its counterpart is.
proof fn lemma_passed_mirror(sq: Seq<Option<Piece>>, i: int, c: Color)
    requires
        valid_squares(sq),
        0 <= i < 64,
    ensures
        passed(mirrored(sq), i, opponent_of(c)) == passed(sq, mirror_square(i), c),
{
    let m = mirrored(sq);
    lemma_mirror_square(i);
    assert(opponent_of(opponent_of(c)) == c);
    if passed(m, i, opponent_of(c)) {
        assert forall|j: int|
            0 <= j < 64 && abs_spec(file_spec(j) - file_spec(mirror_square(i))) <= 1 && ahead(c, mirror_square(i), j) implies #[trigger] sq[j]
            != Some(Piece::of(PieceType::Pawn, opponent_of(c))) by {
            lemma_mirror_square(j);
            lemma_mirrored_at(sq, mirror_square(j), PieceType::Pawn, c);
            assert(ahead(opponent_of(c), i, mirror_square(j)));
            assert(m[mirror_square(j)] != Some(Piece::of(PieceType::Pawn, opponent_of(opponent_of(c)))));
        }
    }
    if passed(sq, mirror_square(i), c) {
        assert forall|j: int| 0 <= j < 64 && abs_spec(file_spec(j) - file_spec(i)) <= 1 && ahead(opponent_of(c), i, j) implies #[trigger] m[j]
            != Some(Piece::of(PieceType::Pawn, opponent_of(opponent_of(c)))) by {
            lemma_mirror_square(j);
            lemma_mirrored_at(sq, j, PieceType::Pawn, c);
            assert(ahead(c, mirror_square(i), mirror_square(j)));
            assert(sq[mirror_square(j)] != Some(Piece::of(PieceType::Pawn, opponent_of(c))));
        }
    }
}

/// The pawn structure of the mirrored board is worth the negation.
proof fn lemma_structure_mirror(sq: Seq<Option<Piece>>)
    requires
        valid_squares(sq),
    ensures
        structure_sum(mirrored(sq), 64) == -structure_sum(sq, 64),
{
    let m = mirrored(sq);
    lemma_structure_total(m, 64);
    lemma_structure_total(sq, 64);
    let h = |j: int| structure_term(sq, j);
    let k = |i: int| structure_term(m, i);
    assert forall|i: int| 0 <= i < 64 implies #[trigger] k(i) == -h(mirror_square(i)) by {
        lemma_mirror_square(i);
        let o = sq[mirror_square(i)];
        lemma_flip(o);
        match o {
            Some(p) => {
                lemma_isolated_mirror(sq, i, p.side());
                lemma_passed_mirror(sq, i, p.side());
            },
            None => {},
        }
    }
    lemma_mirror_negates(h, k);
}

/// The mirrored board holds as many pieces of a kind in one color as the board holds in
/// the other.
proof fn lemma_count_mirror(sq: Seq<Option<Piece>>, t: PieceType, c: Color)
    requires
        valid_squares(sq),
    ensures
        piece_count(mirrored(sq), t, c) == piece_count(sq, t, opponent_of(c)),
{
    let m = mirrored(sq);
    lemma_count_total(m, Piece::of(t, c), 64);
    lemma_count_total(sq, Piece::of(t, opponent_of(c)), 64);
    let h = |j: int| holds_piece(sq[j], Piece::of(t, opponent_of(c)));
    let k = |i: int| holds_piece(m[i], Piece::of(t, c));
    assert forall|i: int| 0 <= i < 64 implies #[trigger] k(i) == h(mirror_square(i)) by {
        lemma_mirrored_at(sq, i, t, c);
    }
    lemma_mirror_keeps(h, k);
}

/// The mirrored board is as far into the game as the board.
proof fn lemma_phase_mirror(sq: Seq<Option<Piece>>)
    requires
        valid_squares(sq),
    ensures
        clamped_phase(mirrored(sq)) == clamped_phase(sq),
{
    let m = mirrored(sq);
    lemma_phase_total(m, 64);
    lemma_phase_total(sq, 64);
    let h = |j: int| weight(sq[j]);
    let k = |i: int| weight(m[i]);
    assert forall|i: int| 0 <= i < 64 implies #[trigger] k(i) == h(mirror_square(i)) by {
        lemma_mirror_square(i);
        lemma_flip(sq[mirror_square(i)]);
    }
    lemma_mirror_keeps(h, k);
}

/// Each color has at most one of this piece on the board.
pub open spec fn at_most_one(sq: Seq<Option<Piece>>, piece: Piece) -> bool {
    forall|a: int, b: int| 0 <= a < 64 && 0 <= b < 64 && #[trigger] sq[a] == Some(piece) && #[trigger] sq[b] == Some(piece) ==> a == b
}

/// The lowest square holding a piece that stands on one square only is that square.
proof fn lemma_lowest_unique(sq: Seq<Option<Piece>>, piece: Piece, i: int, s: int)
    requires
        0 <= i <= s < 64,
        sq[s] == Some(piece),
        forall|j: int| 0 <= j < 64 && j != s ==> #[trigger] sq[j] != Some(piece),
    ensures
        lowest_from(sq, piece, i) == Some(s),
    decreases s - i,
{
    if i < s {
        lemma_lowest_unique(sq, piece, i + 1, s);
    }
}

/// No square holds the piece: none is found.
proof fn lemma_lowest_none(sq: Seq<Option<Piece>>, piece: Piece, i: int)
    requires
        0 <= i <= 64,
        forall|j: int| 0 <= j < 64 ==> #[trigger] sq[j] != Some(piece),
    ensures
        lowest_from(sq, piece, i) is None,
    decreases 64 - i,
{
    if i < 64 {
        lemma_lowest_none(sq, piece, i + 1);
    }
}

/// Where the mirrored board keeps a piece that stands on one square at most.
proof fn lemma_lowest_mirror(sq: Seq<Option<Piece>>, t: PieceType, c: Color)
    requires
        valid_squares(sq),
        at_most_one(sq, Piece::of(t, opponent_of(c))),
    ensures
        lowest_from(mirrored(sq), Piece::of(t, c), 0) == mirror_opt(lowest_from(sq, Piece::of(t, opponent_of(c)), 0)),
{
    let m = mirrored(sq);
    let theirs = Piece::of(t, opponent_of(c));
    let ours = Piece::of(t, c);
    if exists|s: int| 0 <= s < 64 && #[trigger] sq[s] == Some(theirs) {
        let s = choose|s: int| 0 <= s < 64 && #[trigger] sq[s] == Some(theirs);
        assert forall|j: int| 0 <= j < 64 && j != s implies #[trigger] sq[j] != Some(theirs) by {}
        lemma_lowest_unique(sq, theirs, 0, s);
        lemma_mirror_square(s);
        lemma_mirrored_at(sq, mirror_square(s), t, c);
        assert forall|j: int| 0 <= j < 64 && j != mirror_square(s) implies #[trigger] m[j] != Some(ours) by {
            lemma_mirror_square(j);
            lemma_mirrored_at(sq, j, t, c);
        }
        lemma_lowest_unique(m, ours, 0, mirror_square(s));
    } else {
        lemma_lowest_none(sq, theirs, 0);
        assert forall|j: int| 0 <= j < 64 implies #[trigger] m[j] != Some(ours) by {
            lemma_mirror_square(j);
            lemma_mirrored_at(sq, j, t, c);
        }
        lemma_lowest_none(m, ours, 0);
    }
}

/// A position and its mirror image, the other side to move, score the same for the side
/// to move: the evaluation favours neither color. Each side has at most one king, as on
/// any board of a real game.
pub proof fn law_mirror_scores_the_same(sq: Seq<Option<Piece>>, turn: Color)
    requires
        valid_squares(sq),
        at_most_one(sq, Piece::of(PieceType::King, Color::White)),
        at_most_one(sq, Piece::of(PieceType::King, Color::Black)),
    ensures
        evaluate_spec(mirrored(sq), opponent_of(turn)) == evaluate_spec(sq, turn),
{
    let m = mirrored(sq);
    lemma_count_mirror(sq, PieceType::Pawn, Color::White);
    lemma_count_mirror(sq, PieceType::Pawn, Color::Black);
    lemma_count_mirror(sq, PieceType::Rook, Color::White);
    lemma_count_mirror(sq, PieceType::Rook, Color::Black);
    lemma_count_mirror(sq, PieceType::Queen, Color::White);
    lemma_count_mirror(sq, PieceType::Queen, Color::Black);
    lemma_count_mirror(sq, PieceType::Bishop, Color::White);
    lemma_count_mirror(sq, PieceType::Bishop, Color::Black);
    lemma_count_mirror(sq, PieceType::Knight, Color::White);
    lemma_count_mirror(sq, PieceType::Knight, Color::Black);
    assert(insufficient_material_spec(m) == insufficient_material_spec(sq));
    if !insufficient_material_spec(sq) {
        let kings = kings_of(sq);
        lemma_lowest_mirror(sq, PieceType::King, Color::White);
        lemma_lowest_mirror(sq, PieceType::King, Color::Black);
        assert(kings_of(m) == (mirror_opt(kings.1), mirror_opt(kings.0)));
        lemma_phase_mirror(sq);
        let phase = clamped_phase(sq);
        lemma_lowest_in_range(sq, Piece::of(PieceType::King, Color::White), 0);
        lemma_lowest_in_range(sq, Piece::of(PieceType::King, Color::Black), 0);
        lemma_psqt_mirror(sq);
        lemma_pawns_mirror(sq, kings, phase);
        lemma_structure_mirror(sq);
        match kings.0 {
            Some(w) => {
                lemma_mirror_square(w);
                lemma_table_index_mirror(w, Color::Black);
            },
            None => {},
        }
        match kings.1 {
            Some(b) => {
                lemma_mirror_square(b);
                lemma_table_index_mirror(b, Color::White);
            },
            None => {},
        }
        assert(king_score_spec(kings_of(m), phase) == -king_score_spec(kings, phase));
        assert(bishop_pair_spec(
            (piece_count(m, PieceType::Bishop, Color::White), piece_count(m, PieceType::Bishop, Color::Black)),
            phase,
        ) == -bishop_pair_spec(
            (piece_count(sq, PieceType::Bishop, Color::White), piece_count(sq, PieceType::Bishop, Color::Black)),
            phase,
        ));
    }
}

/// A square the scan finds is on the board.
proof fn lemma_lowest_in_range(sq: Seq<Option<Piece>>, piece: Piece, i: int)
    requires
        0 <= i,
    ensures
        lowest_from(sq, piece, i) matches Some(s) ==> i <= s < 64,
    decreases 64 - i,
{
    if i < 64 {
        lemma_lowest_in_range(sq, piece, i + 1);
    }
}

} // verus!
