// The UCI side of the engine: what a UCI GUI or a bot talks to.
//
// One Board and one Search kept for the whole game, so the transposition table
// survives between moves. Nothing here searches or evaluates - it parses commands,
// turns a reported clock into a budget, and writes out what the search found. Reading
// the commands and printing the answers is left to the caller.
use vstd::prelude::*;
use crate::board::board::{Board, describable, describe, start_position_spec};
use crate::board::fen::{fen_ok, fen_position};
use crate::board::rules::Position;
use crate::search::perft::{lemma_played_is_position_after, position_after};
use crate::board::movegen::legal_move;
use crate::board::status::no_legal_moves;
use crate::board::chess_move::{Move, coordinates_spec, parse_coordinates, parse_coordinates_spec};
use crate::board::piece::Color;
use crate::clock::{MIN_THINK_MILLIS, TimeSpan, max_total, moment_after, share_budget, share_of};
use crate::evaluate::{MATE, MATE_BOUND, div_toward_zero};
use crate::search::{DEFAULT_DEPTH, DepthPass, MAX_SEARCH_DEPTH, PLY_LIMIT, Search, SearchLimits, SearchResult};
use crate::text::{
    decimal_spec, push_text, parse_unsigned, parse_unsigned_spec, push_char, push_decimal, push_signed_decimal, same_text,
    signed_decimal_spec, split_words, texts, words_spec,
};
use crate::transposition::TranspositionTable;

verus! {

/// Held back from a reported clock before any budgeting, in milliseconds: the move still
/// has to travel to the server.
pub const DEFAULT_MOVE_OVERHEAD_MILLIS: u64 = 300;

/// A reported clock is spent a twentieth at a time: a clock a GUI reports carries no base
/// to measure how far into the game it is.
pub const UCI_MOVES_LEFT: u32 = 20;

/// A score as UCI writes it: centipawns ("cp 35"), or, for a mate, the distance in moves
/// ("mate 2"), negative when the side to move is the one mated.
pub open spec fn score_text_spec(score: int) -> Seq<char> {
    let magnitude = if score < 0 { -score } else { score };
    if magnitude < MATE_BOUND {
        seq!['c', 'p', ' '] + signed_decimal_spec(score)
    } else {
        let plies = MATE - magnitude;
        let moves = div_toward_zero(plies + 1, 2);
        seq!['m', 'a', 't', 'e', ' '] + signed_decimal_spec(if score > 0 { moves } else { -moves })
    }
}

/// The search scores a mate as MATE less the ply it lands on; UCI counts moves, and wants
/// a mate reported as a distance rather than as a centipawn score no eval could reach.
pub fn score_text(score: i32) -> (r: String)
    requires
        score > i32::MIN,
    ensures
        r@ == score_text_spec(score as int),
{
    let mut text = String::new();
    let magnitude: i32 = if score < 0 { -score } else { score };
    if magnitude < MATE_BOUND {
        push_char(&mut text, 'c');
        push_char(&mut text, 'p');
        push_char(&mut text, ' ');
        push_signed_decimal(&mut text, score as i64);
    } else {
        let plies = MATE - magnitude;
        let moves: i32 = (plies + 1) / 2;
        assert(moves == div_toward_zero(plies + 1, 2));
        push_char(&mut text, 'm');
        push_char(&mut text, 'a');
        push_char(&mut text, 't');
        push_char(&mut text, 'e');
        push_char(&mut text, ' ');
        push_signed_decimal(&mut text, if score > 0 { moves as i64 } else { -(moves as i64) });
    }
    assert(text@ =~= score_text_spec(score as int));
    text
}

/// What a `go` line asks for, read pair by pair.
pub struct GoPlan {
    pub depth: Option<u64>,
    pub movetime: Option<u64>,
    pub white_time: Option<u64>,
    pub black_time: Option<u64>,
    pub white_increment: u64,
    pub black_increment: u64,
}

/// The characters of a keyword.
pub open spec fn keyword(k: int) -> Seq<char> {
    if k == 0 {
        seq!['d', 'e', 'p', 't', 'h']
    } else if k == 1 {
        seq!['m', 'o', 'v', 'e', 't', 'i', 'm', 'e']
    } else if k == 2 {
        seq!['w', 't', 'i', 'm', 'e']
    } else if k == 3 {
        seq!['b', 't', 'i', 'm', 'e']
    } else if k == 4 {
        seq!['w', 'i', 'n', 'c']
    } else if k == 5 {
        seq!['b', 'i', 'n', 'c']
    } else {
        seq!['i', 'n', 'f', 'i', 'n', 'i', 't', 'e']
    }
}

/// A u64 as `str::parse` reads it.
pub open spec fn value_of(t: Seq<char>) -> Option<u64> {
    match parse_unsigned_spec(t, u64::MAX as int) {
        Some(v) => Some(v as u64),
        None => None,
    }
}

/// One pair of a `go` line read into the plan: a key and the value after it. An
/// increment that does not parse counts as none.
pub open spec fn plan_step(plan: GoPlan, key: Seq<char>, value: Option<u64>) -> GoPlan {
    if key == keyword(0) {
        GoPlan { depth: value, ..plan }
    } else if key == keyword(1) {
        GoPlan { movetime: value, ..plan }
    } else if key == keyword(2) {
        GoPlan { white_time: value, ..plan }
    } else if key == keyword(3) {
        GoPlan { black_time: value, ..plan }
    } else if key == keyword(4) {
        GoPlan { white_increment: match value { Some(v) => v, None => 0 }, ..plan }
    } else if key == keyword(5) {
        GoPlan { black_increment: match value { Some(v) => v, None => 0 }, ..plan }
    } else {
        plan
    }
}

/// The plan read from the first `n` pairs of neighbouring words.
pub open spec fn plan_of(words: Seq<Seq<char>>, n: int) -> GoPlan
    decreases n,
{
    if n <= 0 {
        GoPlan { depth: None, movetime: None, white_time: None, black_time: None, white_increment: 0, black_increment: 0 }
    } else {
        plan_step(plan_of(words, n - 1), words[n - 1], value_of(words[n]))
    }
}

/// The plan of a whole `go` line.
pub open spec fn go_plan(words: Seq<Seq<char>>) -> GoPlan {
    plan_of(words, if words.len() > 0 { words.len() - 1 } else { 0 })
}

/// The deepest a plan lets the search go: the depth asked for, cut to 32 bits as the
/// protocol's number is read and capped at MAX_SEARCH_DEPTH, or MAX_SEARCH_DEPTH.
pub open spec fn ceiling_of(plan: GoPlan) -> u32 {
    match plan.depth {
        Some(plies) => {
            let cut = plies as u32;
            if cut < MAX_SEARCH_DEPTH { cut } else { MAX_SEARCH_DEPTH }
        },
        None => MAX_SEARCH_DEPTH,
    }
}

/// What is left on a reported clock once the overhead is held back, in nanoseconds.
pub open spec fn left_after_overhead(reported: Option<u64>, overhead: int) -> int {
    let total = match reported {
        Some(ms) => ms * 1_000_000,
        None => 0,
    };
    if total > overhead { total - overhead } else { 0 }
}

/// What the search may spend, in nanoseconds: an explicit movetime less the overhead,
/// or, when the side to move's clock is reported, a twentieth of it (net of the overhead)
/// with the clock's share of the increment and its caps; None when neither is given.
pub open spec fn budget_of(plan: GoPlan, side: Color, overhead: int) -> Option<int> {
    match plan.movetime {
        Some(ms) => Some(if ms * 1_000_000 > overhead { ms * 1_000_000 - overhead } else { 0 }),
        None => {
            let reported = match side {
                Color::White => plan.white_time,
                Color::Black => plan.black_time,
            };
            let increment = match side {
                Color::White => plan.white_increment,
                Color::Black => plan.black_increment,
            };
            match reported {
                Some(_) => Some(share_budget(left_after_overhead(reported, overhead), increment * 1_000_000, UCI_MOVES_LEFT as int)),
                None => None,
            }
        },
    }
}

/// The side to move spends its own clock: what black may spend does not depend on white's
/// time or increment, and what white may spend does not depend on black's.
pub proof fn law_each_side_spends_its_own_clock(a: GoPlan, b: GoPlan, overhead: int)
    ensures
        a.movetime == b.movetime && a.black_time == b.black_time && a.black_increment == b.black_increment
            ==> budget_of(a, Color::Black, overhead) == budget_of(b, Color::Black, overhead),
        a.movetime == b.movetime && a.white_time == b.white_time && a.white_increment == b.white_increment
            ==> budget_of(a, Color::White, overhead) == budget_of(b, Color::White, overhead),
{
}

/// Without a fixed move time, a side is only given a budget when its own clock was
/// reported, and the budget never exceeds what that clock shows - except for the minimum
/// a search needs to come back with a move at all.
pub proof fn law_the_budget_stays_within_the_own_clock(plan: GoPlan, side: Color, overhead: int)
    requires
        plan.movetime is None,
        0 <= overhead,
    ensures
        ({
            let own = match side {
                Color::White => plan.white_time,
                Color::Black => plan.black_time,
            };
            &&& (budget_of(plan, side, overhead) is Some <==> own is Some)
            &&& (budget_of(plan, side, overhead) matches Some(spent) ==> spent <= own.unwrap() * 1_000_000
                || spent == MIN_THINK_MILLIS * 1_000_000)
        }),
{
}

/// The depth limit a `go` line sets: the default depth for "infinite" (nothing here can
/// be interrupted), the ceiling under a budget, and otherwise the depth asked for,
/// capped, or the default depth.
pub open spec fn go_depth(words: Seq<Seq<char>>, side: Color, overhead: int) -> u32 {
    let plan = go_plan(words);
    if words.contains(keyword(6)) {
        DEFAULT_DEPTH
    } else if budget_of(plan, side, overhead) is Some {
        ceiling_of(plan)
    } else if plan.depth is Some {
        ceiling_of(plan)
    } else {
        DEFAULT_DEPTH
    }
}

/// Whether a `go` line puts the search under a deadline.
pub open spec fn go_is_timed(words: Seq<Seq<char>>, side: Color, overhead: int) -> bool {
    !words.contains(keyword(6)) && budget_of(go_plan(words), side, overhead) is Some
}

/// The answer to one command line: whether to keep reading, and the lines to write.
pub struct EngineReply {
    pub keep_going: bool,
    pub lines: Vec<String>,
}

/// One engine for one game: the board, the search with its table, and the options.
pub struct Engine {
    board: Board,
    search: Search,
    table_megabytes: usize,
    use_book: bool,
    move_overhead: TimeSpan,
}

impl Engine {
    pub closed spec fn board_state(&self) -> Board {
        self.board
    }

    pub closed spec fn overhead(&self) -> int {
        self.move_overhead.total()
    }

    pub closed spec fn megabytes(&self) -> usize {
        self.table_megabytes
    }

    pub closed spec fn book(&self) -> bool {
        self.use_book
    }

    pub closed spec fn wf(&self) -> bool {
        &&& self.board.wf()
        &&& self.search.wf()
        &&& self.table_megabytes <= usize::MAX / 1048576
    }

    /// The starting position, a table of the default size, the default overhead.
    pub fn new() -> (r: Engine)
        ensures
            r.wf(),
            r.board_state().history().len() == 0,
            r.overhead() == DEFAULT_MOVE_OVERHEAD_MILLIS * 1_000_000,
            r.megabytes() == TranspositionTable::DEFAULT_MEGABYTES,
            r.book(),
    {
        let table_megabytes = TranspositionTable::DEFAULT_MEGABYTES;
        Engine {
            board: Board::start_position(),
            search: Search::new(table_megabytes),
            table_megabytes,
            use_book: true,
            move_overhead: TimeSpan::from_millis(DEFAULT_MOVE_OVERHEAD_MILLIS),
        }
    }

    /// The board the engine is playing on.
    pub fn board(&self) -> (r: &Board)
        ensures
            *r == self.board_state(),
    {
        &self.board
    }

    /// What is held back from a reported clock.
    pub fn move_overhead(&self) -> (r: TimeSpan)
        ensures
            r.total() == self.overhead(),
    {
        self.move_overhead
    }

    /// The search limits a `go` line sets: a depth, and a deadline when the line gives a
    /// movetime or the side to move's clock (the deadline is missing only when the
    /// machine's clock cannot count that far ahead).
    pub fn limits_from(&self, words: &Vec<String>) -> (r: SearchLimits)
        requires
            self.wf(),
        ensures
            r.max_depth == go_depth(texts(words@), self.board_state().position().turn, self.overhead()),
            !go_is_timed(texts(words@), self.board_state().position().turn, self.overhead()) ==> r.deadline is None,
    {
        let (plan, infinite) = read_go(words);
        let depth = plan.depth;
        let ceiling: u32 = match depth {
            Some(plies) => {
                let cut = plies as u32;
                if cut < MAX_SEARCH_DEPTH {
                    cut
                } else {
                    MAX_SEARCH_DEPTH
                }
            },
            None => MAX_SEARCH_DEPTH,
        };
        if infinite {
            return SearchLimits::depth(DEFAULT_DEPTH);
        }
        match self.plan_budget(&plan) {
            Some(budget) => SearchLimits { max_depth: ceiling, deadline: moment_after(budget) },
            None => SearchLimits::depth(
                match depth {
                    Some(_) => ceiling,
                    None => DEFAULT_DEPTH,
                },
            ),
        }
    }

    /// What a `go` line lets the search spend on the side to move's move: the movetime
    /// less the overhead, or a share of the side's reported clock; None when the line
    /// gives neither, or asks for an infinite search.
    pub fn go_budget(&self, words: &Vec<String>) -> (r: Option<TimeSpan>)
        requires
            self.wf(),
        ensures
            r is Some == go_is_timed(texts(words@), self.board_state().position().turn, self.overhead()),
            r matches Some(b) ==> budget_of(go_plan(texts(words@)), self.board_state().position().turn, self.overhead())
                == Some(b.total()),
    {
        let (plan, infinite) = read_go(words);
        if infinite {
            return None;
        }
        self.plan_budget(&plan)
    }

    /// What a plan lets the search spend on the side to move's move.
    fn plan_budget(&self, plan: &GoPlan) -> (r: Option<TimeSpan>)
        ensures
            match r {
                Some(b) => budget_of(*plan, self.board_state().position().turn, self.overhead()) == Some(b.total()),
                None => budget_of(*plan, self.board_state().position().turn, self.overhead()) is None,
            },
    {
        let side = self.board.turn();
        match plan.movetime {
            Some(ms) => Some(TimeSpan::from_millis(ms).saturating_sub(self.move_overhead)),
            None => {
                let reported = match side {
                    Color::White => plan.white_time,
                    Color::Black => plan.black_time,
                };
                let increment = match side {
                    Color::White => plan.white_increment,
                    Color::Black => plan.black_increment,
                };
                match reported {
                    Some(ms) => {
                        let left = TimeSpan::from_millis(ms).saturating_sub(self.move_overhead);
                        Some(self.clock_budget_of(left, increment))
                    },
                    None => None,
                }
            },
        }
    }

    /// The budget for one move, with `left` on the clock and `increment_millis` coming
    /// back.
    fn clock_budget_of(&self, left: TimeSpan, increment_millis: u64) -> (r: TimeSpan)
        ensures
            r.total() == share_budget(left.total(), increment_millis * 1_000_000, UCI_MOVES_LEFT as int),
    {
        let increment = TimeSpan::from_millis(increment_millis);
        share_of(left, increment, UCI_MOVES_LEFT)
    }
}

/// The plan of a `go` line, and whether it asks for an infinite search.
fn read_go(words: &Vec<String>) -> (r: (GoPlan, bool))
    ensures
        r.0 == go_plan(texts(words@)),
        r.1 == texts(words@).contains(keyword(6)),
{
    let ghost ws = texts(words@);
    let mut infinite = false;
    let mut depth: Option<u64> = None;
    let mut movetime: Option<u64> = None;
    let mut white_time: Option<u64> = None;
    let mut black_time: Option<u64> = None;
    let mut white_increment: u64 = 0;
    let mut black_increment: u64 = 0;
    let mut i: usize = 0;
    while i < words.len()
        invariant
            ws == texts(words@),
            i <= words@.len(),
            infinite == ws.take(i as int).contains(keyword(6)),
            ({
                let plan = plan_of(ws, if i > 0 { i - 1 } else { 0 });
                &&& plan.depth == depth
                &&& plan.movetime == movetime
                &&& plan.white_time == white_time
                &&& plan.black_time == black_time
                &&& plan.white_increment == white_increment
                &&& plan.black_increment == black_increment
            }),
        decreases words.len() - i,
    {
        let word = words[i].as_str();
        proof {
            reveal_strlit("infinite");
            assert("infinite"@ =~= keyword(6));
            assert(ws[i as int] == words@[i as int]@);
        }
        let is_infinite = same_text(word, "infinite");
        proof {
            let kw = keyword(6);
            let t0 = ws.take(i as int);
            let t1 = ws.take(i + 1);
            assert(t1 =~= t0.push(ws[i as int]));
            if t0.contains(kw) {
                let j = choose|j: int| 0 <= j < t0.len() && t0[j] == kw;
                assert(t1[j] == kw);
            }
            if is_infinite {
                assert(t1[i as int] == kw);
            }
            if t1.contains(kw) {
                let j = choose|j: int| 0 <= j < t1.len() && t1[j] == kw;
                if j < i {
                    assert(t0[j] == kw);
                }
            }
        }
        if is_infinite {
            infinite = true;
        }
        if i > 0 {
            let key = words[i - 1].as_str();
            proof {
                assert(ws[i - 1] == words@[i - 1]@);
            }
            let value = match parse_unsigned(word, u64::MAX as u128) {
                Some(v) => Some(v as u64),
                None => None,
            };
            proof {
                reveal_strlit("depth");
                reveal_strlit("movetime");
                reveal_strlit("wtime");
                reveal_strlit("btime");
                reveal_strlit("winc");
                reveal_strlit("binc");
                assert("depth"@ =~= keyword(0));
                assert("movetime"@ =~= keyword(1));
                assert("wtime"@ =~= keyword(2));
                assert("btime"@ =~= keyword(3));
                assert("winc"@ =~= keyword(4));
                assert("binc"@ =~= keyword(5));
                assert(value == value_of(ws[i as int]));
            }
            if same_text(key, "depth") {
                depth = value;
            } else if same_text(key, "movetime") {
                movetime = value;
            } else if same_text(key, "wtime") {
                white_time = value;
            } else if same_text(key, "btime") {
                black_time = value;
            } else if same_text(key, "winc") {
                white_increment = match value {
                    Some(v) => v,
                    None => 0,
                };
            } else if same_text(key, "binc") {
                black_increment = match value {
                    Some(v) => v,
                    None => 0,
                };
            }
        }
        i = i + 1;
    }
    proof {
        assert(ws.take(words@.len() as int) =~= ws);
    }
    (
        GoPlan {
            depth,
            movetime,
            white_time,
            black_time,
            white_increment,
            black_increment,
        },
        infinite,
    )
}

/// The name and version the engine reports.
pub const ENGINE_NAME: &'static str = "chess_engine";
pub const ENGINE_VERSION: &'static str = "0.1.0";
pub const ENGINE_AUTHOR: &'static str = "stfn123123";

/// A string holding a copy of the text.
fn owned(text: &str) -> (r: String)
    ensures
        r@ == text@,
{
    text.to_owned()
}

/// The words from `start` on, joined by single spaces.
pub open spec fn joined(words: Seq<Seq<char>>, start: int, end: int) -> Seq<char>
    decreases end - start,
{
    if start >= end {
        Seq::empty()
    } else if start + 1 == end {
        words[start]
    } else {
        joined(words, start, end - 1) + seq![' '] + words[end - 1]
    }
}

/// The words `start..end` joined by single spaces.
fn join_words(words: &Vec<String>, start: usize, end: usize) -> (r: String)
    requires
        start <= end <= words@.len(),
    ensures
        r@ == joined(texts(words@), start as int, end as int),
{
    let ghost ws = texts(words@);
    let mut text = String::new();
    let mut i = start;
    assert(text@ =~= joined(ws, start as int, start as int));
    while i < end
        invariant
            ws == texts(words@),
            start <= i <= end <= words@.len(),
            text@ == joined(ws, start as int, i as int),
        decreases end - i,
    {
        let ghost before = text@;
        if i > start {
            push_char(&mut text, ' ');
        }
        push_text(&mut text, words[i].as_str());
        assert(ws[i as int] == words@[i as int]@);
        assert(text@ =~= joined(ws, start as int, i + 1));
        i = i + 1;
    }
    text
}

/// Who the engine is and which options it takes, as the answer to `uci` lists them.
pub open spec fn identity_lines() -> Seq<Seq<char>> {
    seq![
        "id name "@ + ENGINE_NAME@ + seq![' '] + ENGINE_VERSION@,
        "id author "@ + ENGINE_AUTHOR@,
        "option name Hash type spin default "@ + decimal_spec(TranspositionTable::DEFAULT_MEGABYTES as nat) + " min 1 max 4096"@,
        "option name OwnBook type check default true"@,
        "option name Move Overhead type spin default "@ + decimal_spec(DEFAULT_MOVE_OVERHEAD_MILLIS as nat) + " min 0 max 5000"@,
        "uciok"@,
    ]
}

/// The first index at or after `from` holding `word`, if any.
pub open spec fn find_spec(ws: Seq<Seq<char>>, from: int, word: Seq<char>) -> Option<int>
    decreases ws.len() - from,
{
    if from < 0 || from >= ws.len() {
        None
    } else if ws[from] == word {
        Some(from)
    } else {
        find_spec(ws, from + 1, word)
    }
}

/// The first match is the one `find_spec` names.
proof fn lemma_find_spec(ws: Seq<Seq<char>>, from: int, word: Seq<char>, found: Option<int>)
    requires
        0 <= from <= ws.len(),
        match found {
            Some(at) => from <= at < ws.len() && ws[at] == word && forall|j: int| from <= j < at ==> ws[j] != word,
            None => forall|j: int| from <= j < ws.len() ==> ws[j] != word,
        },
    ensures
        find_spec(ws, from, word) == found,
    decreases ws.len() - from,
{
    if from < ws.len() {
        if ws[from] != word {
            lemma_find_spec(ws, from + 1, word, found);
        }
    }
}

/// The name a `setoption` line sets: the words after "name" up to "value".
pub open spec fn option_name(ws: Seq<Seq<char>>) -> Option<Seq<char>> {
    match find_spec(ws, 0, "name"@) {
        Some(at) => Some(
            joined(
                ws,
                at + 1,
                match find_spec(ws, at + 1, "value"@) {
                    Some(v) => v,
                    None => ws.len() as int,
                },
            ),
        ),
        None => None,
    }
}

/// The value a `setoption` line gives: the words after "value", empty when there is none.
pub open spec fn option_value(ws: Seq<Seq<char>>) -> Seq<char> {
    match find_spec(ws, 0, "name"@) {
        Some(at) => match find_spec(ws, at + 1, "value"@) {
            Some(v) => joined(ws, v + 1, ws.len() as int),
            None => Seq::empty(),
        },
        None => Seq::empty(),
    }
}

/// Where the position part of a `position` line ends: at "moves", or at the end.
pub open spec fn position_words_end(ws: Seq<Seq<char>>) -> int {
    match find_spec(ws, 0, "moves"@) {
        Some(at) => at,
        None => ws.len() as int,
    }
}

/// Where the moves of a `position` line start: after "moves", or at the end.
pub open spec fn moves_words_start(ws: Seq<Seq<char>>) -> int {
    match find_spec(ws, 0, "moves"@) {
        Some(at) => at + 1,
        None => ws.len() as int,
    }
}

/// The position once the words from `i` on are played as moves from `p`, stopping at the
/// first that does not read as a move or does not name a piece that could make it.
pub open spec fn replay_spec(p: Position, ws: Seq<Seq<char>>, i: int) -> Position
    decreases ws.len() - i,
{
    if i < 0 || i >= ws.len() {
        p
    } else {
        match parse_coordinates_spec(ws[i]) {
            Some((from, to, promotion)) => if describable(p.squares, from, to) {
                replay_spec(position_after(p, describe(p.squares, from, to, promotion)), ws, i + 1)
            } else {
                p
            },
            None => p,
        }
    }
}

/// What replaying the words from `i` on reports: nothing, or the first word that could
/// not be played.
pub open spec fn bad_move_lines(p: Position, ws: Seq<Seq<char>>, i: int) -> Seq<Seq<char>>
    decreases ws.len() - i,
{
    if i < 0 || i >= ws.len() {
        Seq::empty()
    } else {
        match parse_coordinates_spec(ws[i]) {
            Some((from, to, promotion)) => if describable(p.squares, from, to) {
                bad_move_lines(position_after(p, describe(p.squares, from, to, promotion)), ws, i + 1)
            } else {
                seq!["info string bad move: "@ + ws[i]]
            },
            None => seq!["info string bad move: "@ + ws[i]],
        }
    }
}

/// What a `setoption` line does: "Hash" with a size that can be addressed sets the
/// table size, "OwnBook" whether a book is asked, "Move Overhead" the milliseconds held
/// back from a clock; a value that does not read as a number changes nothing, and the
/// board stays as it is.
pub open spec fn option_effect(before: Engine, after: Engine, ws: Seq<Seq<char>>) -> bool {
    let name = option_name(ws);
    let value = option_value(ws);
    &&& after.board_state() == before.board_state()
    &&& after.megabytes() == match parse_unsigned_spec(value, usize::MAX as int) {
        Some(mb) => if name == Some("Hash"@) && mb <= usize::MAX / 1048576 { mb as usize } else { before.megabytes() },
        None => before.megabytes(),
    }
    &&& after.book() == if name == Some("OwnBook"@) { value == "true"@ } else { before.book() }
    &&& after.overhead() == match parse_unsigned_spec(value, u64::MAX as int) {
        Some(ms) => if name == Some("Move Overhead"@) { ms * 1_000_000 } else { before.overhead() },
        None => before.overhead(),
    }
}

/// What a `position` line does: the starting position or the position of a FEN, with the
/// moves after "moves" played on it up to the first that cannot be, which is reported; a
/// FEN that does not read is reported and leaves the board as it was, and a line that
/// names neither changes nothing. The options stay as they are.
pub open spec fn position_effect(before: Engine, after: Engine, ws: Seq<Seq<char>>, lines: Seq<Seq<char>>) -> bool {
    let end = position_words_end(ws);
    let start = moves_words_start(ws);
    &&& after.overhead() == before.overhead()
    &&& after.megabytes() == before.megabytes()
    &&& after.book() == before.book()
    &&& if end < 2 || (ws[1] != "startpos"@ && ws[1] != "fen"@) {
        &&& after.board_state() == before.board_state()
        &&& lines.len() == 0
    } else if ws[1] == "startpos"@ {
        &&& after.board_state().position() == replay_spec(start_position_spec(), ws, start)
        &&& lines == bad_move_lines(start_position_spec(), ws, start)
    } else if fen_ok(joined(ws, 2, end)) {
        exists|q: Position| #[trigger] fen_position(joined(ws, 2, end), q)
            && after.board_state().position() == replay_spec(q, ws, start)
            && lines == bad_move_lines(q, ws, start)
    } else {
        &&& after.board_state() == before.board_state()
        &&& lines.len() == 1
    }
}

/// What a `go` line does: the board and the options stay as they are, and the last line
/// answers with a legal move of the position, or with "0000" - always when there is no
/// legal move, and only then when the line lets the search go at least one ply deep.
pub open spec fn go_effect(before: Engine, after: Engine, ws: Seq<Seq<char>>, lines: Seq<Seq<char>>) -> bool {
    let p = before.board_state().position();
    let last = lines.last();
    &&& after.board_state().position() == p
    &&& after.board_state().history() == before.board_state().history()
    &&& after.overhead() == before.overhead()
    &&& after.megabytes() == before.megabytes()
    &&& after.book() == before.book()
    &&& lines.len() > 0
    &&& last == "bestmove 0000"@ || exists|m: Move| #[trigger] legal_move(p, p.turn, m) && last == "bestmove "@ + coordinates_spec(m)
    &&& no_legal_moves(p) ==> last == "bestmove 0000"@
    &&& go_depth(ws, p.turn, before.overhead()) >= 1 && !no_legal_moves(p) && before.board_state().history().len()
        < usize::MAX - 256 ==> exists|m: Move| #[trigger] legal_move(p, p.turn, m) && last == "bestmove "@ + coordinates_spec(m)
}

/// The first index at or after `from` holding this word, if any.
fn find_word(words: &Vec<String>, from: usize, word: &str) -> (r: Option<usize>)
    requires
        from <= words@.len(),
    ensures
        match r {
            Some(at) => from <= at < words@.len() && texts(words@)[at as int] == word@ && forall|j: int|
                from <= j < at ==> texts(words@)[j] != word@,
            None => forall|j: int| from <= j < words@.len() ==> texts(words@)[j] != word@,
        },
{
    let mut i = from;
    while i < words.len()
        invariant
            from <= i <= words@.len(),
            forall|j: int| from <= j < i ==> texts(words@)[j] != word@,
        decreases words.len() - i,
    {
        assert(texts(words@)[i as int] == words@[i as int]@);
        if same_text(words[i].as_str(), word) {
            return Some(i);
        }
        i = i + 1;
    }
    None
}

impl Engine {
    /// The engine's answer to one command line. Unknown commands are ignored, as the
    /// protocol asks; `quit` ends the loop.
    pub fn handle(&mut self, line: &str) -> (r: EngineReply)
        requires
            old(self).wf(),
        ensures
            final(self).wf(),
            ({
                let ws = words_spec(line@);
                let command = if ws.len() > 0 { ws[0] } else { Seq::empty() };
                let lines = texts(r.lines@);
                &&& r.keep_going == !(command == "quit"@)
                &&& command == "uci"@ ==> lines == identity_lines() && *final(self) == *old(self)
                &&& command == "isready"@ ==> lines == seq!["readyok"@] && *final(self) == *old(self)
                &&& command == "ucinewgame"@ ==> {
                    &&& lines.len() == 0
                    &&& final(self).board_state().position() == start_position_spec()
                    &&& final(self).board_state().history().len() == 0
                    &&& final(self).overhead() == old(self).overhead()
                    &&& final(self).megabytes() == old(self).megabytes()
                    &&& final(self).book() == old(self).book()
                }
                &&& command == "setoption"@ ==> lines.len() == 0 && option_effect(*old(self), *final(self), ws)
                &&& command == "position"@ ==> position_effect(*old(self), *final(self), ws, lines)
                &&& command == "go"@ ==> go_effect(*old(self), *final(self), ws, lines)
                &&& !(command == "uci"@ || command == "isready"@ || command == "ucinewgame"@ || command == "setoption"@
                    || command == "position"@ || command == "go"@) ==> lines.len() == 0 && *final(self) == *old(self)
            }),
    {
        let words = split_words(line);
        let mut lines: Vec<String> = Vec::new();
        proof {
            reveal_strlit("quit");
            reveal_strlit("uci");
            reveal_strlit("isready");
            reveal_strlit("ucinewgame");
            reveal_strlit("setoption");
            reveal_strlit("position");
            reveal_strlit("go");
            assert("quit"@ != "uci"@ && "quit"@ != "isready"@ && "uci"@ != "isready"@) by {
                assert("quit"@[0] != "uci"@[0]);
                assert("quit"@[0] != "isready"@[0]);
                assert("uci"@[0] != "isready"@[0]);
            }
            assert("uci"@ != "ucinewgame"@) by {
                assert("uci"@.len() != "ucinewgame"@.len());
            }
            assert("quit"@ != "ucinewgame"@ && "quit"@ != "setoption"@ && "quit"@ != "position"@ && "quit"@ != "go"@) by {
                assert("quit"@[0] != "ucinewgame"@[0]);
                assert("quit"@[0] != "setoption"@[0]);
                assert("quit"@[0] != "position"@[0]);
                assert("quit"@[0] != "go"@[0]);
            }
            assert("isready"@ != "ucinewgame"@ && "isready"@ != "setoption"@ && "isready"@ != "position"@ && "isready"@ != "go"@) by {
                assert("isready"@[0] != "ucinewgame"@[0]);
                assert("isready"@[0] != "setoption"@[0]);
                assert("isready"@[0] != "position"@[0]);
                assert("isready"@[0] != "go"@[0]);
            }
            assert("uci"@ != "setoption"@ && "uci"@ != "position"@ && "uci"@ != "go"@) by {
                assert("uci"@[0] != "setoption"@[0]);
                assert("uci"@[0] != "position"@[0]);
                assert("uci"@[0] != "go"@[0]);
            }
            assert("ucinewgame"@ != "setoption"@ && "ucinewgame"@ != "position"@ && "ucinewgame"@ != "go"@) by {
                assert("ucinewgame"@[0] != "setoption"@[0]);
                assert("ucinewgame"@[0] != "position"@[0]);
                assert("ucinewgame"@[0] != "go"@[0]);
            }
            assert("setoption"@ != "position"@ && "setoption"@ != "go"@ && "position"@ != "go"@) by {
                assert("setoption"@[0] != "position"@[0]);
                assert("setoption"@[0] != "go"@[0]);
                assert("position"@[0] != "go"@[0]);
            }
        }
        if words.len() == 0 {
            proof {
                assert(texts(lines@) =~= Seq::<Seq<char>>::empty());
                let nothing = Seq::<char>::empty();
                assert(nothing != "quit"@ && nothing != "uci"@ && nothing != "isready"@ && nothing != "ucinewgame"@
                    && nothing != "setoption"@ && nothing != "position"@ && nothing != "go"@) by {
                    assert("quit"@.len() > 0 && "uci"@.len() > 0 && "isready"@.len() > 0 && "ucinewgame"@.len() > 0
                        && "setoption"@.len() > 0 && "position"@.len() > 0 && "go"@.len() > 0);
                }
            }
            return EngineReply { keep_going: true, lines };
        }
        let command = words[0].as_str();
        proof {
            assert(texts(words@)[0] == words@[0]@);
        }
        if same_text(command, "quit") {
            return EngineReply { keep_going: false, lines };
        }
        if same_text(command, "uci") {
            lines = self.identify();
        } else if same_text(command, "isready") {
            lines.push(owned("readyok"));
            assert(texts(lines@) =~= seq!["readyok"@]);
        } else if same_text(command, "ucinewgame") {
            self.new_game();
        } else if same_text(command, "setoption") {
            self.set_option(&words);
        } else if same_text(command, "position") {
            lines = self.set_position(&words);
        } else if same_text(command, "go") {
            lines = self.go(&words);
        }
        // "stop" and "ponderhit" have nothing to interrupt: a search here runs to its end
        // before the next line is read
        EngineReply { keep_going: true, lines }
    }

    /// Who the engine is and which options it takes.
    pub fn identify(&self) -> (r: Vec<String>)
        ensures
            texts(r@) == identity_lines(),
    {
        let mut lines: Vec<String> = Vec::new();
        let mut name = owned("id name ");
        push_text(&mut name, ENGINE_NAME);
        push_char(&mut name, ' ');
        push_text(&mut name, ENGINE_VERSION);
        lines.push(name);
        let mut author = owned("id author ");
        push_text(&mut author, ENGINE_AUTHOR);
        lines.push(author);
        let mut hash = owned("option name Hash type spin default ");
        push_decimal(&mut hash, TranspositionTable::DEFAULT_MEGABYTES as u128);
        push_text(&mut hash, " min 1 max 4096");
        lines.push(hash);
        lines.push(owned("option name OwnBook type check default true"));
        let mut overhead = owned("option name Move Overhead type spin default ");
        push_decimal(&mut overhead, DEFAULT_MOVE_OVERHEAD_MILLIS as u128);
        push_text(&mut overhead, " min 0 max 5000");
        lines.push(overhead);
        lines.push(owned("uciok"));
        assert(lines@[0]@ =~= identity_lines()[0]);
        assert(lines@[1]@ =~= identity_lines()[1]);
        assert(lines@[2]@ =~= identity_lines()[2]);
        assert(lines@[4]@ =~= identity_lines()[4]);
        assert(texts(lines@) =~= identity_lines());
        lines
    }

    /// A new game gets a new board and a new table.
    pub fn new_game(&mut self)
        requires
            old(self).wf(),
        ensures
            final(self).wf(),
            final(self).board_state().position() == start_position_spec(),
            final(self).board_state().history().len() == 0,
            final(self).overhead() == old(self).overhead(),
            final(self).megabytes() == old(self).megabytes(),
            final(self).book() == old(self).book(),
    {
        self.board = Board::start_position();
        self.search = Search::new(self.table_megabytes);
    }

    /// `setoption name <name> value <value>`, where the name can have spaces in it and so
    /// runs up to the "value" keyword. "Hash" sets the table size for the next game,
    /// "OwnBook" whether a book is asked, "Move Overhead" the milliseconds held back from a
    /// reported clock; a value that does not parse changes nothing, and a table size too
    /// large to be addressed is ignored.
    pub fn set_option(&mut self, words: &Vec<String>)
        requires
            old(self).wf(),
        ensures
            final(self).wf(),
            option_effect(*old(self), *final(self), texts(words@)),
    {
        let ghost ws = texts(words@);
        proof {
            reveal_strlit("Hash");
            reveal_strlit("OwnBook");
            reveal_strlit("Move Overhead");
            assert("Hash"@ != "OwnBook"@ && "Hash"@ != "Move Overhead"@ && "OwnBook"@ != "Move Overhead"@) by {
                assert("Hash"@[0] != "OwnBook"@[0]);
                assert("Hash"@[0] != "Move Overhead"@[0]);
                assert("OwnBook"@[0] != "Move Overhead"@[0]);
            }
        }
        let name_found = find_word(words, 0, "name");
        proof {
            lemma_find_spec(ws, 0, "name"@, match name_found { Some(at) => Some(at as int), None => None });
        }
        let name_at = match name_found {
            Some(at) => at,
            None => {
                return;
            },
        };
        let count = words.len();
        let value_at = find_word(words, name_at + 1, "value");
        proof {
            lemma_find_spec(ws, name_at + 1, "value"@, match value_at { Some(at) => Some(at as int), None => None });
        }
        let name_end = match value_at {
            Some(at) => at,
            None => words.len(),
        };
        let name = join_words(words, name_at + 1, name_end);
        let value = match value_at {
            Some(at) => join_words(words, at + 1, count),
            None => String::new(),
        };
        if same_text(name.as_str(), "Hash") {
            match parse_unsigned(value.as_str(), usize::MAX as u128) {
                Some(megabytes) => {
                    if megabytes <= (usize::MAX / 1048576) as u128 {
                        self.table_megabytes = megabytes as usize;
                    }
                },
                None => {},
            }
        } else if same_text(name.as_str(), "OwnBook") {
            self.use_book = same_text(value.as_str(), "true");
            self.search = Search::new(self.table_megabytes);
        } else if same_text(name.as_str(), "Move Overhead") {
            match parse_unsigned(value.as_str(), u64::MAX as u128) {
                Some(milliseconds) => {
                    self.move_overhead = TimeSpan::from_millis(milliseconds as u64);
                },
                None => {},
            }
        }
    }

    /// `position startpos [moves e2e4 e7e5 ...]`: the starting position with the moves
    /// played on it. A move that does not read as a move, or that names no piece to move,
    /// stops the replay there with a line saying so.
    pub fn set_position(&mut self, words: &Vec<String>) -> (r: Vec<String>)
        requires
            old(self).wf(),
        ensures
            final(self).wf(),
            position_effect(*old(self), *final(self), texts(words@), texts(r@)),
    {
        let ghost ws = texts(words@);
        proof {
            reveal_strlit("startpos");
            reveal_strlit("fen");
            assert("startpos"@ != "fen"@) by {
                assert("startpos"@[0] != "fen"@[0]);
            }
        }
        let mut lines: Vec<String> = Vec::new();
        let moves_at = find_word(words, 0, "moves");
        proof {
            lemma_find_spec(ws, 0, "moves"@, match moves_at { Some(at) => Some(at as int), None => None });
        }
        let position_end = match moves_at {
            Some(at) => at,
            None => words.len(),
        };
        if position_end < 2 {
            return lines;
        }
        let kind = words[1].as_str();
        proof {
            assert(ws[1] == words@[1]@);
        }
        if same_text(kind, "startpos") {
            self.board = Board::start_position();
        } else if same_text(kind, "fen") {
            let fen = join_words(words, 2, position_end);
            match Board::from_fen(fen.as_str()) {
                Ok(board) => {
                    self.board = board;
                },
                Err(error) => {
                    // keeping the last good board would answer a later `go` about the
                    // wrong position, so say so and change nothing
                    let mut text = owned("info string bad fen: ");
                    push_text(&mut text, error.as_str());
                    lines.push(text);
                    return lines;
                },
            }
        } else {
            return lines;
        }
        let count = words.len();
        let start = match moves_at {
            Some(at) => at + 1,
            None => words.len(),
        };
        let ghost first = self.board.position();
        let mut i = start;
        while i < words.len()
            invariant
                self.wf(),
                ws == texts(words@),
                start <= i <= words@.len(),
                lines@.len() == 0,
                replay_spec(self.board_state().position(), ws, i as int) == replay_spec(first, ws, start as int),
                bad_move_lines(self.board_state().position(), ws, i as int) == bad_move_lines(first, ws, start as int),
                self.overhead() == old(self).overhead(),
                self.megabytes() == old(self).megabytes(),
                self.book() == old(self).book(),
                position_words_end(ws) >= 2,
                start as int == moves_words_start(ws),
                "startpos"@ != "fen"@,
                ws[1] == "startpos"@ || ws[1] == "fen"@,
                ws[1] == "startpos"@ ==> first == start_position_spec(),
                ws[1] != "startpos"@ ==> fen_ok(joined(ws, 2, position_words_end(ws))) && fen_position(
                    joined(ws, 2, position_words_end(ws)),
                    first,
                ),
            decreases words.len() - i,
        {
            let text = words[i].as_str();
            proof {
                assert(ws[i as int] == words@[i as int]@);
            }
            let parsed = parse_coordinates(text);
            let ghost here = self.board.position();
            match parsed {
                Some((from, to, promotion)) => {
                    if !self.board.can_describe(from, to) {
                        let mut line = owned("info string bad move: ");
                        push_text(&mut line, text);
                        lines.push(line);
                        assert(texts(lines@) =~= seq!["info string bad move: "@ + ws[i as int]]);
                        assert(replay_spec(here, ws, i as int) == here);
                        return lines;
                    }
                    self.board.make_move_from_squares(from, to, promotion);
                    proof {
                        lemma_played_is_position_after(
                            here,
                            describe(here.squares, from as int, to as int, promotion),
                            self.board.position(),
                        );
                    }
                },
                None => {
                    let mut line = owned("info string bad move: ");
                    push_text(&mut line, text);
                    lines.push(line);
                    assert(texts(lines@) =~= seq!["info string bad move: "@ + ws[i as int]]);
                    return lines;
                },
            }
            i = i + 1;
        }
        assert(texts(lines@) =~= Seq::<Seq<char>>::empty());
        lines
    }

    /// Searches the position under the limits the line sets and reports what was found:
    /// one info line per finished pass, then the move.
    pub fn go(&mut self, words: &Vec<String>) -> (r: Vec<String>)
        requires
            old(self).wf(),
        ensures
            final(self).wf(),
            go_effect(*old(self), *final(self), texts(words@), texts(r@)),
    {
        let limits = self.limits_from(words);
        if self.board.history_len() >= usize::MAX - 256 {
            let mut lines: Vec<String> = Vec::new();
            lines.push(owned("bestmove 0000"));
            assert(texts(lines@).last() == "bestmove 0000"@);
            proof {
                self.board.lemma_wf_squares();
                if no_legal_moves(self.board.position()) {
                }
            }
            return lines;
        }
        let ghost p = self.board.position();
        let result = self.search.find_best_move_limited(&mut self.board, &limits);
        let lines = report(&result);
        proof {
            let rs = report_spec(result);
            assert(rs.last() == bestmove_line(result.best_move));
            match result.best_move {
                Some(m) => {
                    assert(legal_move(p, p.turn, m));
                },
                None => {},
            }
        }
        lines
    }
}

/// The info line of one pass of the deepening that found `best`.
pub open spec fn pass_line(pass: DepthPass, best: Move) -> Seq<char> {
    "info depth "@ + decimal_spec(pass.depth as nat) + " score "@ + score_text_spec(pass.score as int) + " nodes "@
        + decimal_spec(pass.positions_searched as nat) + " time "@ + decimal_spec((pass.elapsed.total() / 1_000_000) as nat)
        + " pv "@ + coordinates_spec(best)
}

/// The info lines of the first `n` passes, one for each that found a move.
pub open spec fn pass_lines(passes: Seq<DepthPass>, n: int) -> Seq<Seq<char>>
    decreases n,
{
    if n <= 0 {
        Seq::empty()
    } else {
        let before = pass_lines(passes, n - 1);
        match passes[n - 1].best_move {
            Some(best) => before.push(pass_line(passes[n - 1], best)),
            None => before,
        }
    }
}

/// The line that answers a `go`: the move, or "0000" when there is none.
pub open spec fn bestmove_line(best: Option<Move>) -> Seq<char> {
    match best {
        Some(m) => "bestmove "@ + coordinates_spec(m),
        None => "bestmove 0000"@,
    }
}

/// What a search result is reported as: a line for a book move, the info line of each
/// pass that found a move, and the move.
pub open spec fn report_spec(result: SearchResult) -> Seq<Seq<char>> {
    (if result.from_book { seq!["info string book move"@] } else { Seq::empty() }) + pass_lines(
        result.passes@,
        result.passes@.len() as int,
    ) + seq![bestmove_line(result.best_move)]
}

/// What the search found, as UCI: one info line per pass of the deepening that found a
/// move, then the move ("0000" when there is none).
pub fn report(result: &SearchResult) -> (r: Vec<String>)
    requires
        forall|i: int| 0 <= i < result.passes@.len() ==> (#[trigger] result.passes@[i].best_move matches Some(m) ==> m.from < 64 && m.to < 64 && i32::MIN < result.passes@[i].score),
        result.best_move matches Some(m) ==> m.from < 64 && m.to < 64,
    ensures
        texts(r@) == report_spec(*result),
{
    let mut lines: Vec<String> = Vec::new();
    if result.from_book {
        lines.push(owned("info string book move"));
    }
    let ghost head = texts(lines@);
    assert(head == (if result.from_book { seq!["info string book move"@] } else { Seq::<Seq<char>>::empty() }));
    let mut i: usize = 0;
    while i < result.passes.len()
        invariant
            i <= result.passes@.len(),
            forall|k: int| 0 <= k < result.passes@.len() ==> (#[trigger] result.passes@[k].best_move matches Some(m) ==> m.from < 64 && m.to < 64 && i32::MIN < result.passes@[k].score),
            texts(lines@) == head + pass_lines(result.passes@, i as int),
        decreases result.passes.len() - i,
    {
        let pass = result.passes[i];
        let ghost before = texts(lines@);
        match pass.best_move {
            Some(best) => {
                let mut line = owned("info depth ");
                push_decimal(&mut line, pass.depth as u128);
                push_text(&mut line, " score ");
                let score = score_text(pass.score);
                push_text(&mut line, score.as_str());
                push_text(&mut line, " nodes ");
                push_decimal(&mut line, pass.positions_searched as u128);
                push_text(&mut line, " time ");
                push_decimal(&mut line, pass.elapsed.as_millis());
                push_text(&mut line, " pv ");
                let coordinates = best.coordinates();
                push_text(&mut line, coordinates.as_str());
                assert(line@ =~= pass_line(pass, best));
                lines.push(line);
                assert(texts(lines@) =~= before.push(pass_line(pass, best)));
            },
            None => {},
        }
        assert(pass == result.passes@[i as int]);
        assert(head + pass_lines(result.passes@, i + 1) =~= texts(lines@));
        i = i + 1;
    }
    let ghost before = texts(lines@);
    match result.best_move {
        Some(best) => {
            let mut line = owned("bestmove ");
            let coordinates = best.coordinates();
            push_text(&mut line, coordinates.as_str());
            assert(line@ =~= bestmove_line(result.best_move));
            lines.push(line);
        },
        // checkmate or stalemate on the board: the protocol still wants an answer
        None => {
            lines.push(owned("bestmove 0000"));
        },
    }
    assert(texts(lines@) =~= before.push(bestmove_line(result.best_move)));
    assert(texts(lines@) =~= report_spec(*result));
    lines
}

} // verus!
