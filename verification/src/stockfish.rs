// Reading what Stockfish says over UCI, so its answers can be compared against this
// engine's own. Talking to the process is left to the caller; what is here is how its
// "info" lines are read and how the best line of each rank is kept.
use vstd::prelude::*;
use crate::text::{push_char, parse_signed, parse_signed_spec, parse_unsigned, parse_unsigned_spec, same_text, split_words, texts, words_spec};

verus! {

/// How many of Stockfish's top lines are asked for and kept.
pub const MULTIPV: u32 = 5;

/// How long Stockfish is given per question, in milliseconds.
pub const SEARCH_MOVETIME_MS: u32 = 10000;

/// A score from the side to move's point of view.
#[derive(Clone, Copy, PartialEq, Eq, Debug, Structural)]
pub enum StockfishScore {
    /// Centipawns.
    Centipawns(i32),
    /// Mate in this many moves; negative when the side to move is the one mated.
    MateIn(i32),
}

/// One of Stockfish's top answers, in the order it ranks them.
pub struct StockfishLine {
    pub rank: u32,
    pub best_move: String,
    pub score: StockfishScore,
}

/// The word after the first `key`, if there is one.
pub open spec fn token_after_spec(words: Seq<Seq<char>>, key: Seq<char>) -> Option<Seq<char>> {
    if exists|i: int| 0 <= i < words.len() && words[i] == key {
        let i = choose|i: int| 0 <= i < words.len() && words[i] == key && forall|j: int| 0 <= j < i ==> words[j] != key;
        if i + 1 < words.len() { Some(words[i + 1]) } else { None }
    } else {
        None
    }
}

/// A 32-bit signed number as `str::parse` reads it.
pub open spec fn i32_of(t: Seq<char>) -> Option<i32> {
    match parse_signed_spec(t, i32::MIN as int, i32::MAX as int) {
        Some(v) => Some(v as i32),
        None => None,
    }
}

/// The score an info line gives: "cp" first, then "mate"; None when the one that is
/// there does not read as a number, or neither is.
pub open spec fn info_score(words: Seq<Seq<char>>) -> Option<StockfishScore> {
    match token_after_spec(words, seq!['c', 'p']) {
        Some(t) => match i32_of(t) {
            Some(v) => Some(StockfishScore::Centipawns(v)),
            None => None,
        },
        None => match token_after_spec(words, seq!['m', 'a', 't', 'e']) {
            Some(t) => match i32_of(t) {
                Some(v) => Some(StockfishScore::MateIn(v)),
                None => None,
            },
            None => None,
        },
    }
}

/// What an "info ... multipv N score cp X ... pv e2e4 ..." line says: its rank, its score
/// and the first move of its line; None for any other line.
pub open spec fn info_line_spec(text: Seq<char>) -> Option<(int, StockfishScore, Seq<char>)> {
    let words = words_spec(text);
    if words.len() == 0 || words[0] != seq!['i', 'n', 'f', 'o'] {
        None
    } else {
        match token_after_spec(words, seq!['m', 'u', 'l', 't', 'i', 'p', 'v']) {
            Some(rank_text) => match parse_unsigned_spec(rank_text, u32::MAX as int) {
                Some(rank) => match info_score(words) {
                    Some(score) => match token_after_spec(words, seq!['p', 'v']) {
                        Some(best) => Some((rank, score, best)),
                        None => None,
                    },
                    None => None,
                },
                None => None,
            },
            None => None,
        }
    }
}

/// The word after the first `key`, if there is one.
pub fn token_after(words: &Vec<String>, key: &str) -> (r: Option<String>)
    ensures
        match r {
            Some(t) => token_after_spec(texts(words@), key@) == Some(t@),
            None => token_after_spec(texts(words@), key@) is None,
        },
{
    let ghost ws = texts(words@);
    let mut i: usize = 0;
    while i < words.len()
        invariant
            ws == texts(words@),
            i <= words@.len(),
            forall|j: int| 0 <= j < i ==> ws[j] != key@,
        decreases words.len() - i,
    {
        assert(ws[i as int] == words@[i as int]@);
        if same_text(words[i].as_str(), key) {
            proof {
                let k = choose|k: int| 0 <= k < ws.len() && ws[k] == key@ && forall|j: int| 0 <= j < k ==> ws[j] != key@;
                if k < i {
                    assert(false);
                }
                if k > i {
                    assert(ws[i as int] != key@);
                }
            }
            if i + 1 < words.len() {
                assert(ws[i + 1] == words@[i + 1]@);
                return Some(words[i + 1].clone());
            }
            return None;
        }
        i = i + 1;
    }
    None
}

/// The rank an info line gives after "multipv".
fn info_rank(words: &Vec<String>) -> (r: Option<u32>)
    ensures
        match r {
            Some(rank) => ({
                let t = token_after_spec(texts(words@), seq!['m', 'u', 'l', 't', 'i', 'p', 'v']);
                t is Some && parse_unsigned_spec(t.unwrap(), u32::MAX as int) == Some(rank as int)
            }),
            None => ({
                let t = token_after_spec(texts(words@), seq!['m', 'u', 'l', 't', 'i', 'p', 'v']);
                t is None || parse_unsigned_spec(t.unwrap(), u32::MAX as int) is None
            }),
        },
{
    proof {
        reveal_strlit("multipv");
        assert("multipv"@ =~= seq!['m', 'u', 'l', 't', 'i', 'p', 'v']);
    }
    match token_after(words, "multipv") {
        Some(text) => match parse_unsigned(text.as_str(), u32::MAX as u128) {
            Some(rank) => Some(rank as u32),
            None => None,
        },
        None => None,
    }
}

/// The score an info line gives.
fn info_score_of(words: &Vec<String>) -> (r: Option<StockfishScore>)
    ensures
        r == info_score(texts(words@)),
{
    proof {
        reveal_strlit("cp");
        reveal_strlit("mate");
        assert("cp"@ =~= seq!['c', 'p']);
        assert("mate"@ =~= seq!['m', 'a', 't', 'e']);
    }
    match token_after(words, "cp") {
        Some(text) => match parse_signed(text.as_str(), i32::MIN as i64, i32::MAX as i64) {
            Some(value) => Some(StockfishScore::Centipawns(value as i32)),
            None => None,
        },
        None => match token_after(words, "mate") {
            Some(text) => match parse_signed(text.as_str(), i32::MIN as i64, i32::MAX as i64) {
                Some(value) => Some(StockfishScore::MateIn(value as i32)),
                None => None,
            },
            None => None,
        },
    }
}

/// Picks "multipv", "score cp"/"score mate" and the first move of "pv" out of one info line.
pub fn parse_info_line(line: &str) -> (r: Option<StockfishLine>)
    ensures
        match r {
            Some(l) => info_line_spec(line@) == Some((l.rank as int, l.score, l.best_move@)),
            None => info_line_spec(line@) is None,
        },
{
    let words = split_words(line);
    let ghost ws = texts(words@);
    proof {
        reveal_strlit("info");
        reveal_strlit("pv");
        assert("info"@ =~= seq!['i', 'n', 'f', 'o']);
        assert("pv"@ =~= seq!['p', 'v']);
    }
    if words.len() == 0 {
        return None;
    }
    assert(ws[0] == words@[0]@);
    if !same_text(words[0].as_str(), "info") {
        return None;
    }
    let rank = match info_rank(&words) {
        Some(rank) => rank,
        None => {
            return None;
        },
    };
    let score = match info_score_of(&words) {
        Some(score) => score,
        None => {
            return None;
        },
    };
    let best_move = match token_after(&words, "pv") {
        Some(text) => text,
        None => {
            return None;
        },
    };
    Some(StockfishLine { rank, best_move, score })
}

/// A line as the rank, the score and the move it names.
pub open spec fn line_view(l: StockfishLine) -> (int, StockfishScore, Seq<char>) {
    (l.rank as int, l.score, l.best_move@)
}

/// The slots as the lines they hold.
pub open spec fn slot_views(slots: Seq<Option<StockfishLine>>) -> Seq<Option<(int, StockfishScore, Seq<char>)>> {
    slots.map_values(|s: Option<StockfishLine>| match s {
        Some(l) => Some(line_view(l)),
        None => None,
    })
}

/// The lines that are there, in rank order.
pub open spec fn kept(ranks: Seq<Option<(int, StockfishScore, Seq<char>)>>) -> Seq<(int, StockfishScore, Seq<char>)>
    decreases ranks.len(),
{
    if ranks.len() == 0 {
        Seq::empty()
    } else {
        match ranks[0] {
            Some(x) => seq![x] + kept(ranks.drop_first()),
            None => kept(ranks.drop_first()),
        }
    }
}

/// The latest line Stockfish reported for each rank, 1 to MULTIPV.
pub struct TopLines {
    slots: Vec<Option<StockfishLine>>,
}

impl TopLines {
    pub closed spec fn ranks(&self) -> Seq<Option<(int, StockfishScore, Seq<char>)>> {
        slot_views(self.slots@)
    }

    /// No line kept yet.
    pub fn new() -> (r: TopLines)
        ensures
            r.ranks().len() == MULTIPV,
            forall|i: int| 0 <= i < MULTIPV ==> #[trigger] r.ranks()[i] is None,
    {
        let mut slots: Vec<Option<StockfishLine>> = Vec::new();
        while slots.len() < MULTIPV as usize
            invariant
                slots@.len() <= MULTIPV,
                forall|i: int| 0 <= i < slots@.len() ==> #[trigger] slots@[i] is None,
            decreases MULTIPV - slots@.len(),
        {
            slots.push(None);
        }
        TopLines { slots }
    }

    /// Takes one line of Stockfish's output: an info line of rank 1 to MULTIPV replaces
    /// what was kept for that rank. Whether the line is the closing "bestmove".
    pub fn take(&mut self, line: &str) -> (r: bool)
        requires
            old(self).ranks().len() == MULTIPV,
        ensures
            final(self).ranks().len() == MULTIPV,
            r == (line@.len() >= 8 && line@.take(8) == "bestmove"@),
            !r ==> match info_line_spec(line@) {
                Some(info) => if 1 <= info.0 <= MULTIPV {
                    final(self).ranks() == old(self).ranks().update(info.0 - 1, Some(info))
                } else {
                    final(self).ranks() == old(self).ranks()
                },
                None => final(self).ranks() == old(self).ranks(),
            },
            r ==> final(self).ranks() == old(self).ranks(),
    {
        if starts_with_bestmove(line) {
            return true;
        }
        match parse_info_line(line) {
            Some(info) => {
                if info.rank >= 1 && info.rank <= MULTIPV {
                    let index = (info.rank - 1) as usize;
                    let ghost before = self.ranks();
                    let ghost entry = Some((info.rank as int, info.score, info.best_move@));
                    self.slots.set(index, Some(info));
                    assert(self.ranks() =~= before.update(index as int, entry));
                }
            },
            None => {},
        }
        false
    }

    /// What was kept, best rank first; an error when nothing usable came.
    pub fn finish(self) -> (r: Result<Vec<StockfishLine>, String>)
        ensures
            r is Err == (forall|i: int| 0 <= i < self.ranks().len() ==> #[trigger] self.ranks()[i] is None),
            r matches Ok(lines) ==> lines@.map_values(|l: StockfishLine| line_view(l)) == kept(self.ranks()),
    {
        let mut found: Vec<StockfishLine> = Vec::new();
        let mut slots = self.slots;
        let ghost ranks = self.ranks();
        let mut any = false;
        let n = slots.len();
        let mut i: usize = 0;
        while i < n
            invariant
                n == slots@.len(),
                i <= n,
                ranks.len() == n,
                forall|k: int| 0 <= k < n ==> #[trigger] (slots@[k] is None) == (ranks[k] is None),
                any == exists|k: int| 0 <= k < i && #[trigger] ranks[k] is Some,
            decreases n - i,
        {
            assert(ranks[i as int] is None == (slots@[i as int] is None));
            if slots[i].is_some() {
                any = true;
            }
            i = i + 1;
        }
        if !any {
            return Err("stockfish gave no usable lines".to_owned());
        }
        assert(found@.map_values(|l: StockfishLine| line_view(l)) + kept(slot_views(slots@)) =~= kept(ranks));
        while slots.len() > 0
            invariant
                found@.map_values(|l: StockfishLine| line_view(l)) + kept(slot_views(slots@)) == kept(ranks),
            decreases slots@.len(),
        {
            let ghost before_slots = slots@;
            let ghost before_found = found@;
            let slot = slots.remove(0);
            assert(slot_views(before_slots).drop_first() =~= slot_views(slots@));
            match slot {
                Some(line) => {
                    found.push(line);
                    assert(found@.map_values(|l: StockfishLine| line_view(l)) =~= before_found.map_values(
                        |l: StockfishLine| line_view(l),
                    ).push(line_view(line)));
                },
                None => {},
            }
            assert(found@.map_values(|l: StockfishLine| line_view(l)) + kept(slot_views(slots@)) =~= kept(ranks));
        }
        assert(kept(slot_views(slots@)) =~= Seq::<(int, StockfishScore, Seq<char>)>::empty());
        assert(found@.map_values(|l: StockfishLine| line_view(l)) =~= kept(ranks));
        Ok(found)
    }
}

/// Whether a line starts with "bestmove".
pub fn starts_with_bestmove(line: &str) -> (r: bool)
    ensures
        r == (line@.len() >= 8 && line@.take(8) == "bestmove"@),
{
    let key = "bestmove";
    proof {
        reveal_strlit("bestmove");
    }
    let n = line.unicode_len();
    if n < 8 {
        return false;
    }
    let mut i: usize = 0;
    while i < 8
        invariant
            n == line@.len(),
            n >= 8,
            key@ == "bestmove"@,
            key@.len() == 8,
            i <= 8,
            forall|j: int| 0 <= j < i ==> line@[j] == key@[j],
        decreases 8 - i,
    {
        if line.get_char(i) != key.get_char(i) {
            assert(line@.take(8)[i as int] != key@[i as int]);
            return false;
        }
        i = i + 1;
    }
    assert(line@.take(8) =~= key@);
    true
}

/// A score as a library file writes it: "cp" or "mate" straight before the number.
pub open spec fn eval_spec(text: Seq<char>) -> Option<StockfishScore> {
    if text.len() >= 2 && text.take(2) == seq!['c', 'p'] {
        match i32_of(text.skip(2)) {
            Some(v) => Some(StockfishScore::Centipawns(v)),
            None => None,
        }
    } else if text.len() >= 4 && text.take(4) == seq!['m', 'a', 't', 'e'] {
        match i32_of(text.skip(4)) {
            Some(v) => Some(StockfishScore::MateIn(v)),
            None => None,
        }
    } else {
        None
    }
}

/// The text from `start` on.
fn rest_of(text: &str, start: usize) -> (r: String)
    requires
        start <= text@.len(),
    ensures
        r@ == text@.skip(start as int),
{
    let n = text.unicode_len();
    let mut rest = String::new();
    let mut i = start;
    while i < n
        invariant
            n == text@.len(),
            start <= i <= n,
            rest@ == text@.subrange(start as int, i as int),
        decreases n - i,
    {
        push_char(&mut rest, text.get_char(i));
        assert(text@.subrange(start as int, i + 1) =~= text@.subrange(start as int, i as int).push(text@[i as int]));
        i = i + 1;
    }
    assert(text@.subrange(start as int, n as int) =~= text@.skip(start as int));
    rest
}

/// Reads a score written as "cp<centipawns>" or "mate<moves>".
pub fn parse_eval(text: &str) -> (r: Option<StockfishScore>)
    ensures
        r == eval_spec(text@),
{
    let n = text.unicode_len();
    if n >= 2 && text.get_char(0) == 'c' && text.get_char(1) == 'p' {
        assert(text@.take(2) =~= seq!['c', 'p']);
        let rest = rest_of(text, 2);
        return match parse_signed(rest.as_str(), i32::MIN as i64, i32::MAX as i64) {
            Some(value) => Some(StockfishScore::Centipawns(value as i32)),
            None => None,
        };
    }
    proof {
        if n >= 2 && text@.take(2) == seq!['c', 'p'] {
            assert(text@.take(2)[0] == 'c' && text@.take(2)[1] == 'p');
        }
    }
    if n >= 4 && text.get_char(0) == 'm' && text.get_char(1) == 'a' && text.get_char(2) == 't' && text.get_char(3) == 'e' {
        assert(text@.take(4) =~= seq!['m', 'a', 't', 'e']);
        let rest = rest_of(text, 4);
        return match parse_signed(rest.as_str(), i32::MIN as i64, i32::MAX as i64) {
            Some(value) => Some(StockfishScore::MateIn(value as i32)),
            None => None,
        };
    }
    proof {
        if n >= 4 && text@.take(4) == seq!['m', 'a', 't', 'e'] {
            assert(text@.take(4)[0] == 'm' && text@.take(4)[1] == 'a' && text@.take(4)[2] == 't' && text@.take(4)[3] == 'e');
        }
    }
    None
}

/// The fields of a line between its tabs, empty ones included: one more than there are
/// tabs, as `str::split` gives them.
pub open spec fn tab_fields(text: Seq<char>) -> Seq<Seq<char>>
    decreases text.len(),
{
    if text.len() == 0 {
        seq![Seq::<char>::empty()]
    } else {
        let before = tab_fields(text.drop_last());
        if text.last() == '\t' {
            before.push(Seq::<char>::empty())
        } else {
            before.update(before.len() - 1, before.last().push(text.last()))
        }
    }
}

/// There is always at least one field.
pub proof fn lemma_tab_fields_len(text: Seq<char>)
    ensures
        tab_fields(text).len() >= 1,
    decreases text.len(),
{
    if text.len() > 0 {
        lemma_tab_fields_len(text.drop_last());
    }
}

/// The fields of a line between its tabs.
pub fn split_tabs(text: &str) -> (r: Vec<String>)
    ensures
        texts(r@) == tab_fields(text@),
{
    let n = text.unicode_len();
    let mut fields: Vec<String> = Vec::new();
    let mut current = String::new();
    let mut i: usize = 0;
    proof {
        assert(text@.take(0) =~= Seq::<char>::empty());
        assert(texts(fields@).push(current@) =~= tab_fields(text@.take(0)));
    }
    while i < n
        invariant
            n == text@.len(),
            i <= n,
            texts(fields@).push(current@) == tab_fields(text@.take(i as int)),
        decreases n - i,
    {
        let c = text.get_char(i);
        let ghost before_fields = fields@;
        let ghost before_current = current@;
        proof {
            assert(text@.take(i + 1).drop_last() =~= text@.take(i as int));
            assert(text@.take(i + 1).last() == c);
        }
        if c == '\t' {
            fields.push(current);
            current = String::new();
            proof {
                assert(texts(fields@) =~= texts(before_fields).push(before_current));
                assert(texts(fields@).push(current@) =~= tab_fields(text@.take(i + 1)));
            }
        } else {
            push_char(&mut current, c);
            proof {
                let prev = texts(before_fields).push(before_current);
                assert(texts(fields@).push(current@) =~= prev.update(prev.len() - 1, prev.last().push(c)));
            }
        }
        i = i + 1;
    }
    proof {
        assert(text@.take(n as int) =~= text@);
    }
    fields.push(current);
    proof {
        assert(texts(fields@) =~= tab_fields(text@));
    }
    fields
}

/// A line of the library of analysed positions, its phase left as the text it was
/// written as: the id, the FEN, the phase, Stockfish's moves best first, and its score.
pub struct LibraryLine {
    pub id: u32,
    pub fen: String,
    pub phase: String,
    pub moves: Vec<String>,
    pub eval: StockfishScore,
}

/// What a library line holds, read off its tab-separated fields: an id, a FEN, a phase,
/// at least one move and a score; nothing when a field is missing, the id is not a u32
/// or the score does not read.
pub open spec fn library_line_spec(line: Seq<char>) -> Option<(int, Seq<char>, Seq<char>, Seq<Seq<char>>, StockfishScore)> {
    let fields = tab_fields(line);
    if fields.len() < 5 {
        None
    } else {
        match (parse_unsigned_spec(fields[0], u32::MAX as int), eval_spec(fields[fields.len() - 1])) {
            (Some(id), Some(eval)) => Some((id, fields[1], fields[2], fields.subrange(3, fields.len() - 1), eval)),
            _ => None,
        }
    }
}

/// Reads a line of the library of analysed positions.
pub fn library_line(line: &str) -> (r: Option<LibraryLine>)
    ensures
        r is Some <==> library_line_spec(line@) is Some,
        r matches Some(l) ==> ({
            let s = library_line_spec(line@)->0;
            &&& l.id as int == s.0
            &&& l.fen@ == s.1
            &&& l.phase@ == s.2
            &&& texts(l.moves@) == s.3
            &&& l.eval == s.4
        }),
{
    let fields = split_tabs(line);
    if fields.len() < 5 {
        return None;
    }
    let last = fields.len() - 1;
    proof {
        assert(texts(fields@)[0] == fields@[0]@);
        assert(texts(fields@)[last as int] == fields@[last as int]@);
    }
    let id = match parse_unsigned(fields[0].as_str(), 4294967295) {
        Some(id) => id as u32,
        None => {
            return None;
        },
    };
    let eval = match parse_eval(fields[last].as_str()) {
        Some(eval) => eval,
        None => {
            return None;
        },
    };
    let mut moves: Vec<String> = Vec::new();
    let mut i: usize = 3;
    while i < last
        invariant
            3 <= i <= last,
            last + 1 == fields@.len(),
            texts(moves@) == texts(fields@).subrange(3, i as int),
        decreases last - i,
    {
        let ghost before = moves@;
        moves.push(fields[i].clone());
        proof {
            assert(texts(moves@) =~= texts(before).push(fields@[i as int]@));
            assert(texts(fields@).subrange(3, i + 1) =~= texts(fields@).subrange(3, i as int).push(fields@[i as int]@));
        }
        i = i + 1;
    }
    proof {
        assert(texts(fields@)[1] == fields@[1]@);
        assert(texts(fields@)[2] == fields@[2]@);
    }
    Some(LibraryLine { id, fen: fields[1].clone(), phase: fields[2].clone(), moves, eval })
}

} // verus!
