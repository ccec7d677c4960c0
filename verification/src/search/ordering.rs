// Move ordering: the guesses the search goes by when it decides which move to try first.
//
// How early a cutoff comes is down to the order the moves are tried in. What the
// ordering has to go on is mostly the material a move wins; quiet moves that cut a
// sibling node off (the killers) are tried next, and the move the table kept goes first.
use vstd::prelude::*;
use vstd::seq_lib::to_multiset_update;
use crate::board::board::{Board, playable};
use crate::board::movegen::lemma_legal_playable;
use crate::board::chess_move::Move;
use crate::board::piece::{Color, PieceType, opponent_of, pawn_direction_of};
use crate::board::square::{offset, offset_spec};
use crate::board::movegen::generated;
use crate::evaluate::{base_value, piece_value};

verus! {

/// The move the table kept ranks ahead of anything the guesswork can score.
pub const TABLE_MOVE_SCORE: i32 = 1_000_000;

/// Killers kept per ply: the first is almost always the one that cuts again.
pub const KILLERS_PER_PLY: usize = 2;

/// Killers rank after every capture and before ordinary quiet moves.
pub open spec fn killer_score(slot: int) -> int {
    if slot == 0 { 99 } else { 98 }
}

/// A pawn of `color` covers `square`: it stands one rank behind it, on a neighbouring file.
pub open spec fn pawn_guards(sq: Seq<Option<crate::board::piece::Piece>>, square: int, color: Color) -> bool {
    let back = -pawn_direction_of(color);
    ||| (offset_spec(square, -1, back) matches Some(from) && sq[from] matches Some(p) && p.kind() == PieceType::Pawn
        && p.side() == color)
    ||| (offset_spec(square, 1, back) matches Some(from) && sq[from] matches Some(p) && p.kind() == PieceType::Pawn
        && p.side() == color)
}

/// What a move looks worth without playing it: ten times what it takes less what takes
/// it, what a promotion turns the pawn into less the pawn, and less the piece itself when
/// it steps onto a square an enemy pawn covers (pawns excepted).
pub open spec fn guessed_score(sq: Seq<Option<crate::board::piece::Piece>>, m: Move) -> int {
    let moved = m.piece.kind();
    let capture = match m.captured {
        Some(c) => 10 * base_value(c.kind()) - base_value(moved),
        None => 0,
    };
    let promotion = match m.promotion {
        Some(t) => base_value(t) - base_value(PieceType::Pawn),
        None => 0,
    };
    let exposed = if moved != PieceType::Pawn && pawn_guards(sq, m.to as int, opponent_of(m.piece.side())) {
        base_value(moved)
    } else {
        0
    };
    capture + promotion - exposed
}

/// A killer scores by its slot; any other move is guessed at.
pub open spec fn move_score_spec(sq: Seq<Option<crate::board::piece::Piece>>, m: Move, killers: Seq<Option<Move>>) -> int {
    if killers[0] == Some(m) {
        killer_score(0)
    } else if killers[1] == Some(m) {
        killer_score(1)
    } else {
        guessed_score(sq, m)
    }
}

/// The score a move is ordered by at a full-width node.
pub open spec fn order_score(
    sq: Seq<Option<crate::board::piece::Piece>>,
    m: Move,
    table_move: Option<Move>,
    killers: Seq<Option<Move>>,
) -> int {
    if table_move == Some(m) {
        TABLE_MOVE_SCORE as int
    } else {
        move_score_spec(sq, m, killers)
    }
}

/// MVV-LVA: the victim weighs eight times the attacker.
pub open spec fn capture_score_spec(m: Move) -> int {
    let victim = match m.captured {
        Some(c) => base_value(c.kind()),
        None => 0,
    };
    victim * 8 - base_value(m.piece.kind())
}

/// The two moves are the same move.
pub fn same_move(a: &Move, b: &Move) -> (r: bool)
    ensures
        r == (*a == *b),
{
    *a == *b
}

/// `candidate` is the move held in `slot`.
pub fn holds(slot: &Option<Move>, candidate: &Move) -> (r: bool)
    ensures
        r == (*slot == Some(*candidate)),
{
    match slot {
        Some(m) => same_move(m, candidate),
        None => false,
    }
}

/// Whether a pawn of `color` covers this square, read off the board as it stands.
pub fn attacked_by_pawn(board: &Board, square: u8, color: Color) -> (r: bool)
    requires
        board.wf(),
        square < 64,
    ensures
        r == pawn_guards(board.position().squares, square as int, color),
{
    let back: i8 = -color.pawn_direction();
    let left = offset(square, (-1, back));
    let on_left = match left {
        Some(from) => match board.piece_at(from) {
            Some(piece) => piece.is(PieceType::Pawn) && piece.color() == color,
            None => false,
        },
        None => false,
    };
    if on_left {
        return true;
    }
    let right = offset(square, (1, back));
    match right {
        Some(from) => match board.piece_at(from) {
            Some(piece) => piece.is(PieceType::Pawn) && piece.color() == color,
            None => false,
        },
        None => false,
    }
}

/// What a move looks worth without playing it, in centipawns; a killer scores by its slot.
pub fn move_score(board: &Board, chess_move: &Move, killers: [Option<Move>; KILLERS_PER_PLY]) -> (r: i32)
    requires
        board.wf(),
        playable(*chess_move),
    ensures
        r == move_score_spec(board.position().squares, *chess_move, killers@),
{
    if holds(&killers[0], chess_move) {
        return 99;
    }
    if holds(&killers[1], chess_move) {
        return 98;
    }
    let mut score: i32 = 0;
    let moved = chess_move.piece.piece_type();
    // what is taken decides, what takes it only breaks ties
    match chess_move.captured {
        Some(captured) => {
            score = score + 10 * piece_value(captured.piece_type()) as i32 - piece_value(moved) as i32;
        },
        None => {},
    }
    // what the pawn turns into, less the pawn it stops being
    match chess_move.promotion {
        Some(promotion) => {
            score = score + (piece_value(promotion) - piece_value(PieceType::Pawn)) as i32;
        },
        None => {},
    }
    // stepping in front of a pawn hands the piece over for a pawn
    if moved != PieceType::Pawn && attacked_by_pawn(board, chess_move.to, chess_move.piece.color().opponent()) {
        score = score - piece_value(moved) as i32;
    }
    score
}

/// MVV-LVA: the victim weighs eight times the attacker, so what is taken decides.
pub fn capture_score(chess_move: &Move) -> (r: i32)
    requires
        playable(*chess_move),
    ensures
        r == capture_score_spec(*chess_move),
{
    let victim: i16 = match chess_move.captured {
        Some(piece) => piece_value(piece.piece_type()),
        None => 0,
    };
    let attacker = piece_value(chess_move.piece.piece_type());
    (victim * 8 - attacker) as i32
}

/// The moves of one node, handed out best first: a selection sort that stops when the
/// caller stops asking, since most nodes cut off after a move or two.
pub struct MoveOrder {
    moves: Vec<Move>,
    /// Parallel to `moves`, swapped alongside it.
    scores: Vec<i32>,
    handed_out: usize,
    /// The moves with their scores as they were loaded.
    loaded: Ghost<Seq<(Move, i32)>>,
}

impl MoveOrder {
    pub closed spec fn moves(&self) -> Seq<Move> {
        self.moves@
    }

    pub closed spec fn scores(&self) -> Seq<i32> {
        self.scores@
    }

    /// How many moves have been handed out; they are the first ones of `moves`.
    pub closed spec fn handed(&self) -> int {
        self.handed_out as int
    }

    /// The moves and their scores, as the last load put them in.
    pub closed spec fn loaded(&self) -> Seq<(Move, i32)> {
        self.loaded@
    }

    /// Each move beside its score.
    pub open spec fn pairs(&self) -> Seq<(Move, i32)> {
        Seq::new(self.moves().len(), |i: int| (self.moves()[i], self.scores()[i]))
    }

    /// The list holds what was loaded, each move once with its score, and what has been
    /// handed out came best first: nothing after a handed-out move scores above it.
    pub open spec fn wf(&self) -> bool {
        &&& self.moves().len() == self.scores().len()
        &&& 0 <= self.handed() <= self.moves().len()
        &&& self.pairs().to_multiset() == self.loaded().to_multiset()
        &&& forall|i: int, j: int|
            0 <= i < j < self.moves().len() && i < self.handed() ==> #[trigger] self.scores()[i] >= #[trigger] self.scores()[j]
    }

    /// How many moves the list holds, handed out or not.
    pub fn len(&self) -> (r: usize)
        ensures
            r == self.moves().len(),
    {
        self.moves.len()
    }

    /// How many moves have been handed out so far.
    pub fn handed_out(&self) -> (r: usize)
        ensures
            r == self.handed(),
    {
        self.handed_out
    }

    /// An empty one, to be filled by one of the two loads.
    pub fn new() -> (r: MoveOrder)
        ensures
            r.wf(),
            r.moves().len() == 0,
            r.handed() == 0,
    {
        let r = MoveOrder { moves: Vec::new(), scores: Vec::new(), handed_out: 0, loaded: Ghost(Seq::empty()) };
        assert(r.pairs() =~= Seq::<(Move, i32)>::empty());
        r
    }

    /// Every legal move of the side to move, the table's move scored ahead of the rest,
    /// the killers next after the captures.
    pub fn load(&mut self, board: &Board, table_move: Option<Move>, killers: [Option<Move>; KILLERS_PER_PLY])
        requires
            board.wf(),
        ensures
            final(self).wf(),
            final(self).handed() == 0,
            generated(board.position(), board.position().turn, false, final(self).moves()),
            final(self).moves().no_duplicates(),
            forall|i: int|
                0 <= i < final(self).moves().len() ==> #[trigger] final(self).scores()[i] == order_score(
                    board.position().squares,
                    final(self).moves()[i],
                    table_move,
                    killers@,
                ),
            final(self).loaded() == final(self).pairs(),
    {
        let moves = board.legal_moves();
        let mut scores: Vec<i32> = Vec::new();
        let mut index: usize = 0;
        while index < moves.len()
            invariant
                board.wf(),
                generated(board.position(), board.position().turn, false, moves@),
                index <= moves.len(),
                scores.len() == index,
                forall|i: int|
                    0 <= i < index ==> #[trigger] scores@[i] == order_score(board.position().squares, moves@[i], table_move, killers@),
            decreases moves.len() - index,
        {
            let chess_move = moves[index];
            assert(moves@.contains(chess_move));
            proof {
                board.lemma_wf_squares();
                lemma_legal_playable(board.position(), board.position().turn, chess_move);
            }
            let score = if holds(&table_move, &chess_move) {
                TABLE_MOVE_SCORE
            } else {
                move_score(board, &chess_move, killers)
            };
            scores.push(score);
            index = index + 1;
        }
        self.moves = moves;
        self.scores = scores;
        self.handed_out = 0;
        self.loaded = Ghost(self.pairs());
    }

    /// The captures of the side to move, ordered by MVV-LVA alone.
    pub fn load_captures(&mut self, board: &Board)
        requires
            board.wf(),
        ensures
            final(self).wf(),
            final(self).handed() == 0,
            generated(board.position(), board.position().turn, true, final(self).moves()),
            final(self).moves().no_duplicates(),
            forall|i: int|
                0 <= i < final(self).moves().len() ==> #[trigger] final(self).scores()[i] == capture_score_spec(
                    final(self).moves()[i],
                ),
            final(self).loaded() == final(self).pairs(),
    {
        let moves = board.legal_captures();
        let mut scores: Vec<i32> = Vec::new();
        let mut index: usize = 0;
        while index < moves.len()
            invariant
                board.wf(),
                generated(board.position(), board.position().turn, true, moves@),
                index <= moves.len(),
                scores.len() == index,
                forall|i: int| 0 <= i < index ==> #[trigger] scores@[i] == capture_score_spec(moves@[i]),
            decreases moves.len() - index,
        {
            assert(moves@.contains(moves@[index as int]));
            proof {
                board.lemma_wf_squares();
                lemma_legal_playable(board.position(), board.position().turn, moves@[index as int]);
            }
            let score = capture_score(&moves[index]);
            scores.push(score);
            index = index + 1;
        }
        self.moves = moves;
        self.scores = scores;
        self.handed_out = 0;
        self.loaded = Ghost(self.pairs());
    }

    /// The best of the moves not handed out yet, brought to the front of them; None once
    /// every move has been handed out.
    pub fn next(&mut self) -> (r: Option<Move>)
        requires
            old(self).wf(),
        ensures
            final(self).wf(),
            final(self).loaded() == old(self).loaded(),
            final(self).moves().len() == old(self).moves().len(),
            r matches Some(m) ==> was_loaded(old(self).loaded(), m),
            old(self).handed() == old(self).moves().len() ==> r is None && final(self).moves() == old(self).moves()
                && final(self).scores() == old(self).scores() && final(self).handed() == old(self).handed(),
            old(self).handed() < old(self).moves().len() ==> {
                &&& final(self).pairs() == after_handing(old(self).pairs(), old(self).handed())
                &&& final(self).handed() == old(self).handed() + 1
                &&& r == Some(final(self).moves()[old(self).handed()])
                &&& forall|i: int| 0 <= i < old(self).handed() ==> #[trigger] final(self).pairs()[i] == old(self).pairs()[i]
                &&& forall|j: int|
                    old(self).handed() <= j < old(self).moves().len() ==> final(self).scores()[old(self).handed()]
                        >= #[trigger] old(self).scores()[j]
            },
    {
        let slot = self.handed_out;
        if slot >= self.moves.len() {
            return None;
        }
        // the best of what is left
        let mut best = slot;
        let mut index = slot + 1;
        while index < self.moves.len()
            invariant
                self.moves.len() == self.scores.len(),
                slot <= best < index <= self.moves.len(),
                forall|j: int| slot <= j < index ==> self.scores@[best as int] >= #[trigger] self.scores@[j],
                best == first_best(self.pairs(), slot as int, index as int),
            decreases self.moves.len() - index,
        {
            if self.scores[index] > self.scores[best] {
                best = index;
            }
            index = index + 1;
        }
        let ghost before = self.pairs();
        let ghost old_scores = self.scores@;
        let moved_best = self.moves[best];
        let moved_slot = self.moves[slot];
        self.moves.set(slot, moved_best);
        self.moves.set(best, moved_slot);
        let score_best = self.scores[best];
        let score_slot = self.scores[slot];
        self.scores.set(slot, score_best);
        self.scores.set(best, score_slot);
        proof {
            broadcast use vstd::seq_lib::to_multiset_contains;
            assert(before.contains(before[best as int]));
            assert(self.loaded@.to_multiset().count(before[best as int]) > 0);
            assert(self.loaded@.contains(before[best as int]));
            let k = choose|k: int| 0 <= k < self.loaded@.len() && self.loaded@[k] == before[best as int];
            assert(self.loaded@[k].0 == moved_best);
            let swapped = before.update(slot as int, before[best as int]).update(best as int, before[slot as int]);
            assert(self.pairs() =~= swapped);
            assert(swapped == after_handing(before, slot as int));
            lemma_swap_multiset(before, slot as int, best as int);
            assert forall|i: int, j: int|
                0 <= i < j < self.moves@.len() && i < slot + 1 implies #[trigger] self.scores@[i] >= #[trigger] self.scores@[j] by {
                if i < slot {
                    // both old positions were at or after i; the swap only moves scores within the tail
                    assert(old_scores[i] >= old_scores[j]);
                    assert(old_scores[i] >= old_scores[best as int]);
                    assert(old_scores[i] >= old_scores[slot as int]);
                } else {
                    assert(self.scores@[i] == old_scores[best as int]);
                }
            }
        }
        self.handed_out = slot + 1;
        Some(self.moves[slot])
    }
}

/// Where the best of `pairs[from..to]` stands: the first of the highest scores.
pub open spec fn first_best(pairs: Seq<(Move, i32)>, from: int, to: int) -> int
    decreases to - from,
{
    if to <= from + 1 {
        from
    } else {
        let b = first_best(pairs, from, to - 1);
        if pairs[to - 1].1 > pairs[b].1 {
            to - 1
        } else {
            b
        }
    }
}

/// The list once the `k`-th move is handed out: the best of what is left, the first of
/// equals, swapped to the front of it.
pub open spec fn after_handing(pairs: Seq<(Move, i32)>, k: int) -> Seq<(Move, i32)> {
    if 0 <= k < pairs.len() {
        let b = first_best(pairs, k, pairs.len() as int);
        pairs.update(k, pairs[b]).update(b, pairs[k])
    } else {
        pairs
    }
}

/// The list after the first `k` moves of `loaded` were handed out.
pub open spec fn selected(loaded: Seq<(Move, i32)>, k: nat) -> Seq<(Move, i32)>
    decreases k,
{
    if k == 0 {
        loaded
    } else {
        after_handing(selected(loaded, (k - 1) as nat), k - 1)
    }
}

/// The moves of `loaded` in the order they are handed out.
pub open spec fn handed_order(loaded: Seq<(Move, i32)>) -> Seq<Move> {
    Seq::new(loaded.len(), |k: int| selected(loaded, (k + 1) as nat)[k].0)
}

/// The best of a range stands inside it.
pub proof fn lemma_first_best_in_range(pairs: Seq<(Move, i32)>, from: int, to: int)
    requires
        from < to,
    ensures
        from <= first_best(pairs, from, to) < to,
    decreases to - from,
{
    if to > from + 1 {
        lemma_first_best_in_range(pairs, from, to - 1);
    }
}

/// Handing out moves keeps the length of the list.
pub proof fn lemma_selected_len(loaded: Seq<(Move, i32)>, k: nat)
    ensures
        selected(loaded, k).len() == loaded.len(),
    decreases k,
{
    if k > 0 {
        lemma_selected_len(loaded, (k - 1) as nat);
        let s = selected(loaded, (k - 1) as nat);
        if 0 <= k - 1 < s.len() {
            lemma_first_best_in_range(s, k - 1, s.len() as int);
        }
    }
}

/// `m` is one of the moves that were loaded.
pub open spec fn was_loaded(loaded: Seq<(Move, i32)>, m: Move) -> bool {
    exists|i: int| 0 <= i < loaded.len() && loaded[i].0 == m
}

/// Swapping two entries leaves the multiset of a sequence as it was.
pub proof fn lemma_swap_multiset<A>(s: Seq<A>, i: int, j: int)
    requires
        0 <= i < s.len(),
        0 <= j < s.len(),
    ensures
        s.update(i, s[j]).update(j, s[i]).to_multiset() == s.to_multiset(),
{
    broadcast use vstd::multiset::group_multiset_axioms, vstd::seq_lib::to_multiset_contains;
    let t = s.update(i, s[j]);
    to_multiset_update(s, i, s[j]);
    to_multiset_update(t, j, s[i]);
    assert(t[j] == s[j]);
    let m = s.to_multiset();
    assert(s.contains(s[i]));
    assert(m.count(s[i]) > 0);
    assert(t.update(j, s[i]).to_multiset() == m.insert(s[j]).remove(s[i]).insert(s[i]).remove(s[j]));
    assert forall|v: A| #[trigger] m.insert(s[j]).remove(s[i]).insert(s[i]).remove(s[j]).count(v) == m.count(v) by {
    }
    assert(m.insert(s[j]).remove(s[i]).insert(s[i]).remove(s[j]) =~= m);
}

/// Once every move is handed out, they came out best first, and they are the moves that
/// were loaded, each as often as it was loaded.
pub proof fn law_moves_come_out_best_first(order: MoveOrder)
    requires
        order.wf(),
        order.handed() == order.moves().len(),
    ensures
        order.pairs().to_multiset() == order.loaded().to_multiset(),
        forall|i: int, j: int| 0 <= i < j < order.moves().len() ==> #[trigger] order.scores()[i] >= #[trigger] order.scores()[j],
{
}

} // verus!
