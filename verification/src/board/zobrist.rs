// Zobrist keys.
//
// One random number per (piece, square), plus one per castling side, one per en
// passant file and one for black to move. The hash of a position is all of the keys
// that apply xored together, which is why a move only has to xor the few keys that
// actually changed - and why undoing a move is the very same xor again.
//
// The piece keys are indexed piece first: a move keeps one piece and changes its
// square, so both of its keys sit in the same row of 64.
use vstd::prelude::*;
use crate::board::castling::{CastlingRights, castle_flag, castle_flags};
use crate::board::piece::{Color, Piece};

verus! {

pub const ZOBRIST_SEED: u64 = 0x9E37_79B9_7F4A_7C15;

/// 15 rows of 64 piece keys, then 4 castling keys, 8 en passant files and the side to move.
pub const PIECE_KEYS: usize = 960;
pub const CASTLING_KEYS_AT: usize = 960;
pub const EN_PASSANT_KEYS_AT: usize = 964;
pub const SIDE_TO_MOVE_KEY_AT: usize = 972;
pub const KEY_COUNT: usize = 973;

/// xorshift64: good enough for table keys.
pub open spec fn next_state_spec(state: u64) -> u64 {
    let a = state ^ (state >> 12u64);
    let b = a ^ (a << 25u64);
    b ^ (b >> 27u64)
}

/// The multiplication that turns a state into a key (xorshift64*).
pub open spec fn random_from_spec(state: u64) -> u64 {
    state.wrapping_mul(0x2545_F491_4F6C_DD1Du64)
}

/// The generator's state after `n` steps from the seed.
pub open spec fn zobrist_state(n: nat) -> u64
    decreases n,
{
    if n == 0 {
        ZOBRIST_SEED
    } else {
        next_state_spec(zobrist_state((n - 1) as nat))
    }
}

/// The key at `index`: the generator is stepped once before every key.
pub open spec fn zobrist_key(index: int) -> u64 {
    random_from_spec(zobrist_state((index + 1) as nat))
}

/// The key of a piece standing on a square.
pub open spec fn piece_key(piece: Piece, square: int) -> u64 {
    zobrist_key(piece.bits() * 64 + square)
}

/// The keys of all castling sides that are still open, xored together.
pub open spec fn castling_hash_spec(rights: CastlingRights) -> u64 {
    partial_castling_hash(rights, 4)
}

fn next_state(state: u64) -> (r: u64)
    ensures
        r == next_state_spec(state),
{
    let mut state = state;
    state = state ^ (state >> 12u64);
    state = state ^ (state << 25u64);
    state = state ^ (state >> 27u64);
    state
}

fn random_from(state: u64) -> (r: u64)
    ensures
        r == random_from_spec(state),
{
    state.wrapping_mul(0x2545_F491_4F6C_DD1D)
}

/// The keys, built once per board.
#[derive(Clone)]
pub struct Zobrist {
    keys: Vec<u64>,
}

impl Zobrist {
    pub closed spec fn wf(&self) -> bool {
        &&& self.keys@.len() == KEY_COUNT
        &&& forall|i: int| 0 <= i < KEY_COUNT ==> #[trigger] self.keys@[i] == zobrist_key(i)
    }

    /// Every key, in the order they come out of the generator.
    pub fn build() -> (r: Zobrist)
        ensures
            r.wf(),
    {
        let mut keys: Vec<u64> = Vec::new();
        let mut state = ZOBRIST_SEED;
        let mut index: usize = 0;
        while index < KEY_COUNT
            invariant
                index <= KEY_COUNT,
                keys@.len() == index,
                state == zobrist_state(index as nat),
                forall|i: int| 0 <= i < index ==> #[trigger] keys@[i] == zobrist_key(i),
            decreases KEY_COUNT - index,
        {
            state = next_state(state);
            keys.push(random_from(state));
            index += 1;
        }
        Zobrist { keys }
    }

    pub fn piece(&self, square: u8, piece: Piece) -> (r: u64)
        requires
            self.wf(),
            square < 64,
            piece.bits() < Piece::ZOBRIST_INDEX_COUNT,
        ensures
            r == piece_key(piece, square as int),
    {
        self.keys[piece.zobrist_index() * 64 + square as usize]
    }

    /// Mixed in exactly while black is to move.
    pub fn side_to_move(&self) -> (r: u64)
        requires
            self.wf(),
        ensures
            r == zobrist_key(SIDE_TO_MOVE_KEY_AT as int),
    {
        self.keys[SIDE_TO_MOVE_KEY_AT]
    }

    pub fn en_passant_file(&self, file: u8) -> (r: u64)
        requires
            self.wf(),
            file < 8,
        ensures
            r == zobrist_key(EN_PASSANT_KEYS_AT + file),
    {
        self.keys[EN_PASSANT_KEYS_AT + file as usize]
    }

    /// The keys of all castling sides that are still open.
    pub fn castling(&self, castling_rights: CastlingRights) -> (r: u64)
        requires
            self.wf(),
        ensures
            r == castling_hash_spec(castling_rights),
    {
        let flags = castle_flags();
        let mut hash: u64 = 0;
        let mut index: usize = 0;
        while index < 4
            invariant
                self.wf(),
                index <= 4,
                forall|i: int| 0 <= i < 4 ==> flags@[i] == #[trigger] castle_flag(i),
                hash == partial_castling_hash(castling_rights, index as int),
            decreases 4 - index,
        {
            let (color, side) = flags[index];
            assert(flags@[index as int] == castle_flag(index as int));
            if castling_rights.get(color, side) {
                hash = hash ^ self.keys[CASTLING_KEYS_AT + index];
            }
            index += 1;
        }
        hash
    }
}

/// The castling keys of the first `n` flags that are still open.
pub open spec fn partial_castling_hash(rights: CastlingRights, n: int) -> u64
    decreases n,
{
    if n <= 0 {
        0
    } else if rights.allows(castle_flag(n - 1).0, castle_flag(n - 1).1) {
        partial_castling_hash(rights, n - 1) ^ zobrist_key(960 + n - 1)
    } else {
        partial_castling_hash(rights, n - 1)
    }
}

} // verus!
