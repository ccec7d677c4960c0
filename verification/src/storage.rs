// Stored positions and saved games, one per line: a label, a tab, then the moves that
// lead there from the starting position, oldest first. Replaying the moves keeps the
// history, which a diagram of where the pieces stand would lose along with the
// repetition and fifty move counts. Reading and writing the files is left to the caller.
use vstd::prelude::*;
use crate::board::board::{Board, start_position_spec};
use crate::board::piece::PieceType;
use crate::board::rules::Position;
use crate::search::perft::{legal_list, lemma_generated_is_legal_list, lemma_played_is_position_after, position_after};
use crate::board::chess_move::{Move, coordinates_spec, parse_coordinates, parse_coordinates_spec};
use crate::board::movegen::{legal_move, lemma_legal_move_named_by_squares};
use crate::text::{is_word, lemma_blank_tail, lemma_spaced_push, lemma_spaced_words, push_char, spaced, split_words, texts, words_spec};
use crate::board::piece::{letter_of, type_of_letter};
use crate::board::square::square_name_spec;

verus! {

/// Where the first tab is, if there is one.
pub open spec fn tab_at(text: Seq<char>) -> Option<int> {
    if exists|i: int| 0 <= i < text.len() && text[i] == '\t' {
        Some(choose|i: int| 0 <= i < text.len() && text[i] == '\t' && forall|j: int| 0 <= j < i ==> text[j] != '\t')
    } else {
        None
    }
}

/// The moves of a board separated by single spaces.
pub open spec fn moves_text(moves: Seq<Move>, n: int) -> Seq<char>
    decreases n,
{
    if n <= 0 {
        Seq::empty()
    } else if n == 1 {
        coordinates_spec(moves[0])
    } else {
        moves_text(moves, n - 1) + seq![' '] + coordinates_spec(moves[n - 1])
    }
}

/// The line a board is stored as: its label, a tab, its moves, and a line break.
pub open spec fn saved_line_spec(label: Seq<char>, moves: Seq<Move>) -> Seq<char> {
    label + seq!['\t'] + moves_text(moves, moves.len() as int) + seq!['\n']
}

/// The line a board is stored as.
pub fn saved_line(label: &str, board: &Board) -> (r: String)
    requires
        board.wf(),
    ensures
        r@ == saved_line_spec(label@, board.history().map_values(|h: crate::board::chess_move::MoveRecord| h.chess_move)),
{
    let moves = board.moves_played();
    let ghost played = board.history().map_values(|h: crate::board::chess_move::MoveRecord| h.chess_move);
    proof {
        board.lemma_wf_squares();
        assert(moves@ =~= played);
        assert forall|k: int| 0 <= k < moves@.len() implies (#[trigger] moves@[k]).from < 64 && moves@[k].to < 64 by {
            assert(crate::board::board::valid_record(board.history()[k]));
        }
    }
    let mut text = label.to_owned();
    push_char(&mut text, '\t');
    let ghost start = text@;
    let mut i: usize = 0;
    while i < moves.len()
        invariant
            moves@ == played,
            i <= moves@.len(),
            text@ == start + moves_text(moves@, i as int),
            forall|k: int| 0 <= k < moves@.len() ==> (#[trigger] moves@[k]).from < 64 && moves@[k].to < 64,
        decreases moves.len() - i,
    {
        let ghost before = text@;
        if i > 0 {
            push_char(&mut text, ' ');
        }
        let coordinates = moves[i].coordinates();
        let n = coordinates.as_str().unicode_len();
        let mut k: usize = 0;
        while k < n
            invariant
                n == coordinates@.len(),
                k <= n,
                text@ == before + (if i > 0 { seq![' '] } else { Seq::empty() }) + coordinates@.take(k as int),
            decreases n - k,
        {
            let ghost partial = text@;
            push_char(&mut text, coordinates.as_str().get_char(k));
            assert(coordinates@.take(k + 1) =~= coordinates@.take(k as int).push(coordinates@[k as int]));
            k = k + 1;
        }
        assert(coordinates@.take(n as int) =~= coordinates@);
        assert(text@ =~= start + moves_text(moves@, i + 1));
        i = i + 1;
    }
    push_char(&mut text, '\n');
    assert(text@ =~= saved_line_spec(label@, played));
    text
}

/// The first of the first `n` moves that goes from `from` to `to` with this promotion.
pub open spec fn first_matching(moves: Seq<Move>, from: int, to: int, promotion: Option<PieceType>, n: int) -> Option<Move>
    decreases n,
{
    if n <= 0 {
        None
    } else {
        match first_matching(moves, from, to, promotion, n - 1) {
            Some(m) => Some(m),
            None => if moves[n - 1].from == from && moves[n - 1].to == to && moves[n - 1].promotion == promotion {
                Some(moves[n - 1])
            } else {
                None
            },
        }
    }
}

/// A move goes between these squares with this promotion.
pub open spec fn fits_word(m: Move, from: int, to: int, promotion: Option<PieceType>) -> bool {
    m.from == from && m.to == to && m.promotion == promotion
}

/// The legal move of the side to move that goes between these squares with this
/// promotion, if there is one; there is never more than one.
pub open spec fn legal_matching(p: Position, from: int, to: int, promotion: Option<PieceType>) -> Option<Move> {
    if exists|m: Move| #[trigger] legal_move(p, p.turn, m) && fits_word(m, from, to, promotion) {
        Some(choose|m: Move| #[trigger] legal_move(p, p.turn, m) && fits_word(m, from, to, promotion))
    } else {
        None
    }
}

/// The moves the words from `i` on stand for, played one after the other from `p`: each
/// the legal move that goes between the squares it names with the promotion it names.
/// None when a word does not read as a move or no legal move fits it.
pub open spec fn replay_moves(p: Position, ws: Seq<Seq<char>>, i: int) -> Option<Seq<Move>>
    decreases ws.len() - i,
{
    if i < 0 || i >= ws.len() {
        Some(Seq::empty())
    } else {
        match parse_coordinates_spec(ws[i]) {
            Some((from, to, promotion)) => match legal_matching(p, from, to, promotion) {
                Some(m) => match replay_moves(position_after(p, m), ws, i + 1) {
                    Some(rest) => Some(seq![m] + rest),
                    None => None,
                },
                None => None,
            },
            None => None,
        }
    }
}

/// The position once `moves` are played from `p`.
pub open spec fn after_moves(p: Position, moves: Seq<Move>) -> Position
    decreases moves.len(),
{
    if moves.len() == 0 {
        p
    } else {
        after_moves(position_after(p, moves[0]), moves.drop_first())
    }
}

/// Playing one more move after some moves.
proof fn lemma_after_moves_push(p: Position, moves: Seq<Move>, m: Move)
    ensures
        after_moves(p, moves.push(m)) == position_after(after_moves(p, moves), m),
    decreases moves.len(),
{
    if moves.len() == 0 {
        assert(moves.push(m).drop_first() =~= Seq::<Move>::empty());
        assert(moves.push(m)[0] == m);
        assert(after_moves(position_after(p, m), Seq::<Move>::empty()) == position_after(p, m));
    } else {
        assert(moves.push(m).drop_first() =~= moves.drop_first().push(m));
        assert(moves.push(m)[0] == moves[0]);
        lemma_after_moves_push(position_after(p, moves[0]), moves.drop_first(), m);
    }
}

/// Some moves ahead of what a replay gives.
pub open spec fn ahead(done: Seq<Move>, rest: Option<Seq<Move>>) -> Option<Seq<Move>> {
    match rest {
        Some(r) => Some(done + r),
        None => None,
    }
}

/// The moves a board has played.
pub open spec fn played_moves(board: Board) -> Seq<Move> {
    board.history().map_values(|h: crate::board::chess_move::MoveRecord| h.chess_move)
}

/// The moves written after the first tab of a line, replayed from the starting position.
pub open spec fn line_moves(line: Seq<char>) -> Option<Seq<Move>> {
    match tab_at(line) {
        Some(k) => replay_moves(start_position_spec(), words_spec(line.subrange(k + 1, line.len() as int)), 0),
        None => None,
    }
}

/// A stored line read back: the label before the first tab, and the starting position
/// with the moves after it replayed, each of which has to be legal where it is played.
/// None when there is no tab, or a move does not read as one or is not legal there.
pub fn read_saved_line(line: &str) -> (r: Option<(String, Board)>)
    ensures
        r is Some == line_moves(line@) is Some,
        r matches Some((label, board)) ==> {
            &&& label@ == line@.take(tab_at(line@).unwrap())
            &&& board.wf()
            &&& line_moves(line@) == Some(played_moves(board))
            &&& board.position() == after_moves(start_position_spec(), played_moves(board))
        },
{
    let n = line.unicode_len();
    let mut tab: usize = 0;
    while tab < n && line.get_char(tab) != '\t'
        invariant
            n == line@.len(),
            tab <= n,
            forall|j: int| 0 <= j < tab ==> line@[j] != '\t',
        decreases n - tab,
    {
        tab = tab + 1;
    }
    if tab >= n {
        proof {
            assert forall|i: int| 0 <= i < line@.len() implies line@[i] != '\t' by {}
        }
        return None;
    }
    proof {
        let k = choose|i: int| 0 <= i < line@.len() && line@[i] == '\t' && forall|j: int| 0 <= j < i ==> line@[j] != '\t';
        if k < tab {
            assert(line@[k] != '\t');
        }
        if k > tab {
            assert(line@[tab as int] != '\t');
        }
        assert(tab_at(line@) == Some(tab as int));
    }
    let mut label = String::new();
    let mut i: usize = 0;
    while i < tab
        invariant
            n == line@.len(),
            tab < n,
            i <= tab,
            label@ == line@.take(i as int),
        decreases tab - i,
    {
        push_char(&mut label, line.get_char(i));
        assert(line@.take(i + 1) =~= line@.take(i as int).push(line@[i as int]));
        i = i + 1;
    }
    let mut rest = String::new();
    let mut i: usize = tab + 1;
    while i < n
        invariant
            n == line@.len(),
            tab < n,
            tab + 1 <= i <= n,
            rest@ == line@.subrange(tab + 1, i as int),
        decreases n - i,
    {
        push_char(&mut rest, line.get_char(i));
        assert(line@.subrange(tab + 1, i + 1) =~= line@.subrange(tab + 1, i as int).push(line@[i as int]));
        i = i + 1;
    }
    let words = split_words(rest.as_str());
    let ghost ws = texts(words@);
    let mut board = Board::start_position();
    let mut w: usize = 0;
    assert(played_moves(board) =~= Seq::<Move>::empty());
    assert(ahead(played_moves(board), replay_moves(board.position(), ws, 0)) =~= replay_moves(start_position_spec(), ws, 0));
    while w < words.len()
        invariant
            ws == texts(words@),
            tab < line@.len(),
            tab_at(line@) == Some(tab as int),
            ws == words_spec(line@.subrange(tab + 1, line@.len() as int)),
            w <= words@.len(),
            board.wf(),
            ahead(played_moves(board), replay_moves(board.position(), ws, w as int)) == replay_moves(start_position_spec(), ws, 0),
            board.position() == after_moves(start_position_spec(), played_moves(board)),
        decreases words.len() - w,
    {
        assert(ws[w as int] == words@[w as int]@);
        let (from, to, promotion) = match parse_coordinates(words[w].as_str()) {
            Some(parsed) => parsed,
            None => {
                return None;
            },
        };
        // an edited or outdated file could name a move that isn't legal here
        let candidates = board.legal_moves();
        let ghost here = board.position();
        proof {
            lemma_generated_is_legal_list(here, candidates@);
        }
        let mut found: Option<Move> = None;
        let mut c: usize = 0;
        while c < candidates.len()
            invariant
                c <= candidates@.len(),
                found == first_matching(candidates@, from as int, to as int, promotion, c as int),
            decreases candidates.len() - c,
        {
            let candidate = candidates[c];
            if found.is_none() && candidate.from == from && candidate.to == to && same_promotion(candidate.promotion, promotion) {
                found = Some(candidate);
            }
            c = c + 1;
        }
        proof {
            lemma_first_matching_member(candidates@, from as int, to as int, promotion, candidates@.len() as int);
            lemma_first_matching_complete(candidates@, from as int, to as int, promotion, candidates@.len() as int);
            match found {
                Some(m) => {
                    assert(legal_move(here, here.turn, m) && fits_word(m, from as int, to as int, promotion));
                    let chosen = choose|x: Move| #[trigger] legal_move(here, here.turn, x) && fits_word(x, from as int, to as int, promotion);
                    lemma_legal_move_named_by_squares(here, here.turn, m, chosen);
                },
                None => {
                    assert forall|x: Move| #[trigger] legal_move(here, here.turn, x) implies !fits_word(x, from as int, to as int, promotion) by {
                        assert(candidates@.contains(x));
                    }
                },
            }
        }
        let chess_move = match found {
            Some(m) => m,
            None => {
                return None;
            },
        };
        let ghost before = played_moves(board);
        proof {
            board.lemma_wf_squares();
            crate::board::movegen::lemma_legal_playable(board.position(), board.position().turn, chess_move);
        }
        board.make_move(&chess_move);
        proof {
            lemma_played_is_position_after(here, chess_move, board.position());
            assert(played_moves(board) =~= before.push(chess_move));
            lemma_after_moves_push(start_position_spec(), before, chess_move);
            assert(before + (seq![chess_move] + replay_moves(board.position(), ws, w + 1).unwrap()) =~= before.push(chess_move)
                + replay_moves(board.position(), ws, w + 1).unwrap());
        }
        w = w + 1;
    }
    assert(played_moves(board) + Seq::<Move>::empty() =~= played_moves(board));
    Some((label, board))
}

/// The scan finds a move whenever one of the moves scanned fits.
proof fn lemma_first_matching_complete(moves: Seq<Move>, from: int, to: int, promotion: Option<PieceType>, n: int)
    requires
        0 <= n <= moves.len(),
    ensures
        first_matching(moves, from, to, promotion, n) is None ==> forall|k: int| 0 <= k < n ==> !fits_word(#[trigger] moves[k], from, to, promotion),
    decreases n,
{
    if n > 0 {
        lemma_first_matching_complete(moves, from, to, promotion, n - 1);
    }
}

/// A move the scan finds is one of the moves scanned, and fits what was asked for.
proof fn lemma_first_matching_member(moves: Seq<Move>, from: int, to: int, promotion: Option<PieceType>, n: int)
    requires
        0 <= n <= moves.len(),
    ensures
        first_matching(moves, from, to, promotion, n) matches Some(m) ==> moves.contains(m) && m.from == from && m.to
            == to && m.promotion == promotion,
    decreases n,
{
    if n > 0 {
        lemma_first_matching_member(moves, from, to, promotion, n - 1);
        if first_matching(moves, from, to, promotion, n - 1) is None {
            assert(moves[n - 1] == moves[n - 1]);
        }
    }
}

/// Whether two promotions name the same piece, or both none.
fn same_promotion(a: Option<crate::board::piece::PieceType>, b: Option<crate::board::piece::PieceType>) -> (r: bool)
    ensures
        r == (a == b),
{
    match (a, b) {
        (Some(x), Some(y)) => x == y,
        (None, None) => true,
        _ => false,
    }
}

/// Moves that can be played one after the other from `p`, each legal where it is played.
pub open spec fn legal_game(p: Position, moves: Seq<Move>) -> bool
    decreases moves.len(),
{
    moves.len() == 0 || (legal_move(p, p.turn, moves[0]) && legal_game(position_after(p, moves[0]), moves.drop_first()))
}

/// The words the first `n` moves are written as.
pub open spec fn move_words(moves: Seq<Move>, n: int) -> Seq<Seq<char>> {
    Seq::new(n as nat, |k: int| coordinates_spec(moves[k]))
}

/// The moves written out are their words with single spaces between them.
proof fn lemma_moves_text_spaced(moves: Seq<Move>, n: int)
    requires
        0 <= n <= moves.len(),
    ensures
        moves_text(moves, n) == spaced(move_words(moves, n)),
    decreases n,
{
    if n > 0 {
        lemma_moves_text_spaced(moves, n - 1);
        assert(move_words(moves, n) =~= move_words(moves, n - 1).push(coordinates_spec(moves[n - 1])));
        lemma_spaced_push(move_words(moves, n - 1), coordinates_spec(moves[n - 1]));
        if n == 1 {
            assert(move_words(moves, 0) =~= Seq::<Seq<char>>::empty());
        }
    } else {
        assert(move_words(moves, 0) =~= Seq::<Seq<char>>::empty());
    }
}

/// A legal move is written as one word, which reads back as its squares and promotion.
proof fn lemma_coordinates_read(m: Move)
    requires
        m.from < 64,
        m.to < 64,
    ensures
        is_word(coordinates_spec(m)),
        parse_coordinates_spec(coordinates_spec(m)) == Some((m.from as int, m.to as int, m.promotion)),
{
    let f = m.from as int;
    let t = m.to as int;
    assert(f == (f / 8) * 8 + f % 8);
    assert(t == (t / 8) * 8 + t % 8);
    let text = coordinates_spec(m);
    assert(text[0] == square_name_spec(f)[0]);
    assert(text[1] == square_name_spec(f)[1]);
    assert(text[2] == square_name_spec(t)[0]);
    assert(text[3] == square_name_spec(t)[1]);
    match m.promotion {
        Some(piece_type) => {
            assert(text[4] == letter_of(piece_type));
            assert(type_of_letter(letter_of(piece_type)) == Some(piece_type));
        },
        None => {},
    }
}

/// Replaying the words of a legal game gives back its moves.
proof fn lemma_replay_game(p: Position, moves: Seq<Move>, ws: Seq<Seq<char>>, i: int)
    requires
        legal_game(p, moves),
        0 <= i,
        ws.len() == i + moves.len(),
        forall|k: int| 0 <= k < moves.len() ==> ws[i + k] == #[trigger] coordinates_spec(moves[k]),
    ensures
        replay_moves(p, ws, i) == Some(moves),
    decreases moves.len(),
{
    if moves.len() == 0 {
        assert(replay_moves(p, ws, i) == Some(Seq::<Move>::empty()));
        assert(moves =~= Seq::<Move>::empty());
    } else {
        let m = moves[0];
        assert(ws[i + 0] == coordinates_spec(moves[0]));
        lemma_coordinates_read(m);
        assert(legal_move(p, p.turn, m) && fits_word(m, m.from as int, m.to as int, m.promotion));
        let chosen = choose|x: Move| #[trigger] legal_move(p, p.turn, x) && fits_word(x, m.from as int, m.to as int, m.promotion);
        lemma_legal_move_named_by_squares(p, p.turn, m, chosen);
        let rest = moves.drop_first();
        assert forall|k: int| 0 <= k < rest.len() implies ws[i + 1 + k] == #[trigger] coordinates_spec(rest[k]) by {
            assert(rest[k] == moves[k + 1]);
            assert(ws[i + (k + 1)] == coordinates_spec(moves[k + 1]));
        }
        lemma_replay_game(position_after(p, m), rest, ws, i + 1);
        assert(seq![m] + rest =~= moves);
    }
}

/// A game saved as a line reads back as that game: the label is what stands before the
/// tab, and the moves after it replay, from the starting position, into the very moves
/// that were saved.
pub proof fn law_saved_game_reads_back(label: Seq<char>, moves: Seq<Move>)
    requires
        forall|k: int| 0 <= k < label.len() ==> label[k] != '\t',
        legal_game(start_position_spec(), moves),
    ensures
        tab_at(saved_line_spec(label, moves)) == Some(label.len() as int),
        line_moves(saved_line_spec(label, moves)) == Some(moves),
{
    let line = saved_line_spec(label, moves);
    let n = label.len() as int;
    assert(line[n] == '\t');
    let k = choose|i: int| 0 <= i < line.len() && line[i] == '\t' && forall|j: int| 0 <= j < i ==> line[j] != '\t';
    assert forall|j: int| 0 <= j < n implies line[j] != '\t' by {
        assert(line[j] == label[j]);
    }
    if k < n {
        assert(line[k] == label[k]);
    }
    assert(tab_at(line) == Some(n));

    let body = moves_text(moves, moves.len() as int);
    let rest = line.subrange(n + 1, line.len() as int);
    assert(rest =~= body + seq!['\n']);
    let ws = move_words(moves, moves.len() as int);
    lemma_legal_game_in_range(start_position_spec(), moves);
    if moves.len() == 0 {
        assert(body =~= Seq::<char>::empty());
        lemma_blank_tail(rest, 0, Seq::empty(), Seq::empty());
        assert(words_spec(rest) == Seq::<Seq<char>>::empty());
        assert(ws =~= Seq::<Seq<char>>::empty());
        lemma_replay_game(start_position_spec(), moves, words_spec(rest), 0);
    } else {
        lemma_moves_text_spaced(moves, moves.len() as int);
        assert forall|j: int| 0 <= j < ws.len() implies is_word(#[trigger] ws[j]) by {
            lemma_coordinates_read(moves[j]);
        }
        assert(rest.subrange(0, body.len() as int) =~= spaced(ws));
        lemma_spaced_words(rest, 0, Seq::empty(), ws);
        assert(Seq::<Seq<char>>::empty() + ws =~= ws);
        assert forall|j: int| 0 <= j < moves.len() implies words_spec(rest)[0 + j] == #[trigger] coordinates_spec(moves[j]) by {
        }
        lemma_replay_game(start_position_spec(), moves, words_spec(rest), 0);
    }
}

/// The moves of a legal game go between squares of the board.
proof fn lemma_legal_game_in_range(p: Position, moves: Seq<Move>)
    requires
        legal_game(p, moves),
    ensures
        forall|j: int| 0 <= j < moves.len() ==> (#[trigger] moves[j]).from < 64 && moves[j].to < 64,
    decreases moves.len(),
{
    if moves.len() > 0 {
        lemma_legal_game_in_range(position_after(p, moves[0]), moves.drop_first());
        assert forall|j: int| 0 <= j < moves.len() implies (#[trigger] moves[j]).from < 64 && moves[j].to < 64 by {
            if j > 0 {
                assert(moves[j] == moves.drop_first()[j - 1]);
            }
        }
    }
}

} // verus!
