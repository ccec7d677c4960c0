// The zobrist hash of a whole position, as the xor of every key that applies to it.
use vstd::prelude::*;
use crate::board::piece::{Color, Piece, PieceType};
use crate::board::rules::Position;
use crate::board::square::{en_passant_captured_spec, file_spec, offset_spec};
use crate::board::zobrist::{castling_hash_spec, piece_key, zobrist_key};

verus! {

/// The key of whatever stands on a square; an empty square adds nothing.
pub open spec fn square_key(occupant: Option<Piece>, square: int) -> u64 {
    match occupant {
        Some(p) => piece_key(p, square),
        None => 0,
    }
}

/// The piece keys of the first `n` squares xored together.
pub open spec fn squares_hash(sq: Seq<Option<Piece>>, n: int) -> u64
    decreases n,
{
    if n <= 0 {
        0
    } else {
        squares_hash(sq, n - 1) ^ square_key(sq[n - 1], n - 1)
    }
}

/// Whether a pawn of `color` stands on the square `at`, when `at` is a square at all.
pub open spec fn pawn_on(sq: Seq<Option<Piece>>, at: Option<int>, color: Color) -> bool {
    match at {
        Some(s) => sq[s] == Some(Piece::of(PieceType::Pawn, color)),
        None => false,
    }
}

/// The en passant target, but only while the side to move can really take it.
pub open spec fn capturable_target(p: Position) -> Option<u8> {
    match p.en_passant {
        Some(t) => {
            let captured = en_passant_captured_spec(t as int, p.turn);
            if pawn_on(p.squares, offset_spec(captured, -1, 0), p.turn) || pawn_on(
                p.squares,
                offset_spec(captured, 1, 0),
                p.turn,
            ) {
                Some(t)
            } else {
                None
            }
        },
        None => None,
    }
}

/// Only the file of a target is hashed, and only while it can be captured on.
pub open spec fn en_passant_key(p: Position) -> u64 {
    match capturable_target(p) {
        Some(t) => zobrist_key(964 + file_spec(t as int)),
        None => 0,
    }
}

pub open spec fn side_key(turn: Color) -> u64 {
    match turn {
        Color::White => 0,
        Color::Black => zobrist_key(972),
    }
}

/// The four parts of a hash put together.
pub open spec fn combine(squares: u64, castling: u64, side: u64, en_passant: u64) -> u64 {
    ((squares ^ castling) ^ side) ^ en_passant
}

/// The zobrist hash of a position computed from scratch.
pub open spec fn position_hash(p: Position) -> u64 {
    combine(squares_hash(p.squares, 64), castling_hash_spec(p.castling), side_key(p.turn), en_passant_key(p))
}

/// Changing one square changes the squares' hash by the keys of what left and what arrived.
pub proof fn lemma_squares_hash_update(sq: Seq<Option<Piece>>, i: int, x: Option<Piece>, n: int)
    requires
        0 <= i < n,
        n <= sq.len(),
    ensures
        squares_hash(sq.update(i, x), n) == (squares_hash(sq, n) ^ square_key(sq[i], i)) ^ square_key(x, i),
    decreases n,
{
    let u = sq.update(i, x);
    let a = square_key(sq[i], i);
    let b = square_key(x, i);
    if n - 1 == i {
        assert(squares_hash(u, n - 1) == squares_hash(sq, n - 1)) by {
            lemma_squares_hash_prefix(u, sq, n - 1);
        }
        let h = squares_hash(sq, n - 1);
        assert(h ^ b == ((h ^ a) ^ a) ^ b) by (bit_vector);
    } else {
        lemma_squares_hash_update(sq, i, x, n - 1);
        let h = squares_hash(sq, n - 1);
        let k = square_key(sq[n - 1], n - 1);
        assert(((h ^ a) ^ b) ^ k == ((h ^ k) ^ a) ^ b) by (bit_vector);
    }
}

/// The hash of the first `n` squares only reads those squares.
pub proof fn lemma_squares_hash_prefix(s: Seq<Option<Piece>>, t: Seq<Option<Piece>>, n: int)
    requires
        0 <= n <= s.len(),
        n <= t.len(),
        forall|j: int| 0 <= j < n ==> s[j] == t[j],
    ensures
        squares_hash(s, n) == squares_hash(t, n),
    decreases n,
{
    if n > 0 {
        lemma_squares_hash_prefix(s, t, n - 1);
    }
}

pub proof fn lemma_xor_square(s: u64, c: u64, t: u64, e: u64, a: u64, b: u64)
    ensures
        combine(s, c, t, e) ^ (a ^ b) == combine((s ^ a) ^ b, c, t, e),
{
    assert(((((s ^ c) ^ t) ^ e) ^ (a ^ b)) == (((((s ^ a) ^ b) ^ c) ^ t) ^ e)) by (bit_vector);
}

pub proof fn lemma_xor_castling(s: u64, c: u64, t: u64, e: u64, c2: u64)
    ensures
        combine(s, c, t, e) ^ (c ^ c2) == combine(s, c2, t, e),
{
    assert(((((s ^ c) ^ t) ^ e) ^ (c ^ c2)) == (((s ^ c2) ^ t) ^ e)) by (bit_vector);
}

pub proof fn lemma_xor_side(s: u64, c: u64, t: u64, e: u64, k: u64)
    ensures
        combine(s, c, t, e) ^ k == combine(s, c, t ^ k, e),
        0u64 ^ k == k,
        k ^ k == 0u64,
{
    assert(((((s ^ c) ^ t) ^ e) ^ k) == (((s ^ c) ^ (t ^ k)) ^ e)) by (bit_vector);
    assert(0u64 ^ k == k) by (bit_vector);
    assert(k ^ k == 0u64) by (bit_vector);
}

pub proof fn lemma_xor_en_passant(s: u64, c: u64, t: u64, e: u64, e2: u64)
    ensures
        combine(s, c, t, e) ^ (e ^ e2) == combine(s, c, t, e2),
{
    assert(((((s ^ c) ^ t) ^ e) ^ (e ^ e2)) == (((s ^ c) ^ t) ^ e2)) by (bit_vector);
}

} // verus!
