// What the engine is allowed to spend on a move, and the two clocks of a real game.
//
// Three ways to bound a search: a fixed depth (no clock at all), a fixed time per move,
// or a game clock per side that has to last the whole game. Only the last one needs
// managing - budget_for is where a remaining clock is turned into a budget for one move.
use vstd::prelude::*;
use std::time::Instant;
use crate::board::piece::Color;
use crate::text::{push_char, push_decimal, decimal_spec};

verus! {

#[verifier::external_type_specification]
#[verifier::external_body]
pub struct ExInstant(std::time::Instant);

/// Nanoseconds in a second.
pub const NANOS_PER_SEC: u64 = 1_000_000_000;

/// The longest span there is: every second a u64 can count, and the nanoseconds of one more.
pub open spec fn max_total() -> int {
    u64::MAX as int * 1_000_000_000 + 999_999_999
}

/// A span of time to the nanosecond, as whole seconds and the nanoseconds past them.
#[derive(Clone, Copy, PartialEq, Eq, PartialOrd, Ord, Debug, Hash, Structural)]
pub struct TimeSpan {
    secs: u64,
    nanos: u32,
}

impl TimeSpan {
    #[verifier::type_invariant]
    spec fn inv(self) -> bool {
        self.nanos < 1_000_000_000
    }

    /// The span in nanoseconds.
    pub closed spec fn total(self) -> int {
        self.secs as int * 1_000_000_000 + self.nanos as int
    }

    /// The span as whole seconds and the nanoseconds past them.
    pub fn new(secs: u64, nanos: u32) -> (r: TimeSpan)
        requires
            nanos < 1_000_000_000,
        ensures
            r.total() == secs as int * 1_000_000_000 + nanos as int,
    {
        TimeSpan { secs, nanos }
    }

    /// No time at all.
    pub fn zero() -> (r: TimeSpan)
        ensures
            r.total() == 0,
    {
        TimeSpan { secs: 0, nanos: 0 }
    }

    pub fn from_secs(secs: u64) -> (r: TimeSpan)
        ensures
            r.total() == secs as int * 1_000_000_000,
    {
        TimeSpan { secs, nanos: 0 }
    }

    pub fn from_millis(millis: u64) -> (r: TimeSpan)
        ensures
            r.total() == millis as int * 1_000_000,
    {
        let nanos = ((millis % 1000) * 1_000_000) as u32;
        TimeSpan { secs: millis / 1000, nanos }
    }

    /// The span in nanoseconds.
    pub fn as_nanos(self) -> (r: u128)
        ensures
            r == self.total(),
            r <= max_total(),
    {
        proof {
            use_type_invariant(&self);
        }
        self.secs as u128 * 1_000_000_000 + self.nanos as u128
    }

    /// A span of this many nanoseconds.
    pub fn from_nanos(total: u128) -> (r: TimeSpan)
        requires
            total <= max_total(),
        ensures
            r.total() == total,
    {
        let secs = (total / 1_000_000_000) as u64;
        let nanos = (total % 1_000_000_000) as u32;
        TimeSpan { secs, nanos }
    }

    /// Whole seconds, the rest dropped.
    pub fn as_secs(self) -> (r: u64)
        ensures
            r == self.total() / 1_000_000_000,
    {
        proof {
            use_type_invariant(&self);
        }
        self.secs
    }

    /// The nanoseconds past the whole seconds.
    pub fn subsec_nanos(self) -> (r: u32)
        ensures
            r == self.total() % 1_000_000_000,
            r < 1_000_000_000,
    {
        proof {
            use_type_invariant(&self);
        }
        self.nanos
    }

    /// Whole milliseconds, the rest dropped.
    pub fn as_millis(self) -> (r: u128)
        ensures
            r == self.total() / 1_000_000,
    {
        self.as_nanos() / 1_000_000
    }

    pub fn is_zero(self) -> (r: bool)
        ensures
            r == (self.total() == 0),
    {
        proof {
            use_type_invariant(&self);
        }
        self.secs == 0 && self.nanos == 0
    }

    /// What is left of this span once `other` is taken off it, nothing when that is more.
    pub fn saturating_sub(self, other: TimeSpan) -> (r: TimeSpan)
        ensures
            r.total() == if self.total() > other.total() { self.total() - other.total() } else { 0 },
    {
        let a = self.as_nanos();
        let b = other.as_nanos();
        if a > b {
            TimeSpan::from_nanos(a - b)
        } else {
            TimeSpan::zero()
        }
    }

    /// The two spans one after the other.
    pub fn add(self, other: TimeSpan) -> (r: TimeSpan)
        requires
            self.total() + other.total() <= max_total(),
        ensures
            r.total() == self.total() + other.total(),
    {
        TimeSpan::from_nanos(self.as_nanos() + other.as_nanos())
    }

    /// This span `factor` times over.
    pub fn mul(self, factor: u32) -> (r: TimeSpan)
        requires
            self.total() * factor <= max_total(),
        ensures
            r.total() == self.total() * factor,
    {
        let total = self.as_nanos();
        assert(total * (factor as int) <= max_total());
        TimeSpan::from_nanos(total * factor as u128)
    }

    /// This span cut into `parts`, to the nanosecond below.
    pub fn div(self, parts: u32) -> (r: TimeSpan)
        requires
            parts > 0,
        ensures
            r.total() == self.total() / parts as int,
    {
        let total = self.as_nanos();
        assert(total / (parts as u128) <= total) by (nonlinear_arith)
            requires
                parts > 0,
        ;
        TimeSpan::from_nanos(total / parts as u128)
    }

    /// The shorter of the two.
    pub fn min(self, other: TimeSpan) -> (r: TimeSpan)
        ensures
            r.total() == if self.total() <= other.total() { self.total() } else { other.total() },
    {
        if self.as_nanos() <= other.as_nanos() {
            self
        } else {
            other
        }
    }

    /// The longer of the two.
    pub fn max(self, other: TimeSpan) -> (r: TimeSpan)
        ensures
            r.total() == if self.total() >= other.total() { self.total() } else { other.total() },
    {
        if self.as_nanos() >= other.as_nanos() {
            self
        } else {
            other
        }
    }

    /// Whether this span is shorter than `other`.
    pub fn shorter_than(self, other: TimeSpan) -> (r: bool)
        ensures
            r == (self.total() < other.total()),
            0 <= self.total() <= max_total(),
            0 <= other.total() <= max_total(),
    {
        self.as_nanos() < other.as_nanos()
    }
}

/// The current moment, read off the machine's monotonic clock through `Instant::now`.
#[verifier::external_body]
pub(crate) fn now() -> (r: Instant) {
    Instant::now()
}

/// Whether the moment `at` is at or past `deadline`, by `Instant`'s ordering.
#[verifier::external_body]
fn is_at_or_after(at: &Instant, deadline: &Instant) -> (r: bool) {
    *at >= *deadline
}

/// Whether `deadline` has come, by the machine's monotonic clock; what comes back depends
/// on the moment of the call.
pub(crate) fn has_passed(deadline: &Instant) -> (r: bool) {
    let at = now();
    is_at_or_after(&at, deadline)
}

/// How long ago `start` was, through `Instant::elapsed`; what comes back depends on the
/// moment of the call, and is a valid span.
#[verifier::external_body]
pub(crate) fn elapsed_since(start: &Instant) -> (r: TimeSpan) {
    let spent = start.elapsed();
    TimeSpan { secs: spent.as_secs(), nanos: spent.subsec_nanos() }
}

/// The moment `budget` after `from`, through `Instant::checked_add`; None when the
/// platform's clock cannot represent it.
#[verifier::external_body]
fn later_by(from: &Instant, budget: TimeSpan) -> (r: Option<Instant>) {
    from.checked_add(std::time::Duration::new(budget.secs, budget.nanos))
}

/// The moment `budget` from now; None when the platform's clock cannot represent it.
pub(crate) fn moment_after(budget: TimeSpan) -> (r: Option<Instant>) {
    let from = now();
    later_by(&from, budget)
}

/// What bounds a search.
#[derive(Clone, Copy, PartialEq, Eq, Debug, Structural)]
pub enum TimeControl {
    /// Deepen to the depth set elsewhere, however long that takes; no clock runs.
    Depth,
    /// The same budget for every move; no clock runs.
    MoveTime(TimeSpan),
    /// One clock per side for the whole game, `increment` added back after each move.
    Clock { base: TimeSpan, increment: TimeSpan },
}

/// The presets offered, as (label, base minutes, increment seconds).
pub open spec fn preset_spec(i: int) -> (Seq<char>, u64, u64) {
    if i == 0 {
        ("1+0"@, 1, 0)
    } else if i == 1 {
        ("3+2"@, 3, 2)
    } else if i == 2 {
        ("5+3"@, 5, 3)
    } else if i == 3 {
        ("10+0"@, 10, 0)
    } else {
        ("15+10"@, 15, 10)
    }
}

impl TimeControl {
    /// Whether a game played under this has clocks that run down.
    pub fn is_clocked(self) -> (r: bool)
        ensures
            r == (self is Clock),
    {
        match self {
            TimeControl::Clock { .. } => true,
            _ => false,
        }
    }

    /// A clock of `base_minutes` per side and `increment_seconds` back per move.
    pub fn clock(base_minutes: u64, increment_seconds: u64) -> (r: TimeControl)
        requires
            base_minutes * 60 <= u64::MAX,
        ensures
            r matches TimeControl::Clock { base, increment } && base.total() == base_minutes * 60 * 1_000_000_000
                && increment.total() == increment_seconds * 1_000_000_000,
    {
        TimeControl::Clock {
            base: TimeSpan::from_secs(base_minutes * 60),
            increment: TimeSpan::from_secs(increment_seconds),
        }
    }

    /// The presets offered, as (label, base minutes, increment seconds).
    pub fn presets() -> (r: [(&'static str, u64, u64); 5])
        ensures
            forall|i: int| 0 <= i < 5 ==> (#[trigger] r@[i].0@, r@[i].1, r@[i].2) == preset_spec(i),
    {
        [("1+0", 1, 0), ("3+2", 3, 2), ("5+3", 5, 3), ("10+0", 10, 0), ("15+10", 15, 10)]
    }
}

/// A move gets a share of what is left, spread over at least this many moves...
pub const MOVES_LEFT_MIN: u64 = 15;
/// ...and at most this many.
pub const MOVES_LEFT_MAX: u64 = 25;
/// The fewest moves once the clock is down to this many seconds...
pub const FEWEST_MOVES_LEFT_SECS: u64 = 60;
/// ...and above that one more for every this many seconds on the clock, up to the most.
pub const MOVES_LEFT_PER_SECS: u64 = 60;
/// The share of the increment spent as well, in fifths.
pub const INCREMENT_SHARE: u32 = 4;
pub const INCREMENT_PARTS: u32 = 5;
/// Never more than a third of what is left on one move.
pub const MAX_SHARE_OF_CLOCK: u32 = 3;
/// Held back from every budget, in milliseconds.
pub const RESERVE_MILLIS: u64 = 150;
/// A search still has to come back with something, in milliseconds.
pub const MIN_THINK_MILLIS: u64 = 50;

/// How many moves what is left is spread over: the fewest with a minute or less on the
/// clock, and above that one more for every full minute, up to the most.
pub open spec fn moves_left_spec(remaining: int) -> int {
    let secs = remaining / 1_000_000_000;
    if secs <= FEWEST_MOVES_LEFT_SECS {
        MOVES_LEFT_MIN as int
    } else {
        let spread = MOVES_LEFT_MIN + secs / MOVES_LEFT_PER_SECS as int;
        if spread < MOVES_LEFT_MAX { spread } else { MOVES_LEFT_MAX as int }
    }
}

/// What one move may spend out of `remaining` with `increment` coming back, what is left
/// spread over `moves_left` moves, in nanoseconds: that share plus four fifths of the
/// increment, but never more than a third of the clock nor more than the clock less the
/// reserve, and never less than the minimum; the minimum alone once the clock is down to
/// the reserve.
pub open spec fn share_budget(remaining: int, increment: int, moves_left: int) -> int {
    let reserve = RESERVE_MILLIS * 1_000_000;
    let least = MIN_THINK_MILLIS * 1_000_000;
    if remaining <= reserve {
        least as int
    } else {
        let share = remaining / moves_left;
        let from_increment = increment * INCREMENT_SHARE as int / INCREMENT_PARTS as int;
        let wanted = share + from_increment;
        let third = remaining / MAX_SHARE_OF_CLOCK as int;
        let capped = if wanted <= third { wanted } else { third };
        let safe = if capped <= remaining - reserve { capped } else { remaining - reserve };
        if safe >= least { safe } else { least as int }
    }
}

/// What one move of a game clock may spend: the share over the moves the clock is spread
/// over.
pub open spec fn clock_budget(remaining: int, increment: int) -> int {
    share_budget(remaining, increment, moves_left_spec(remaining))
}

/// What a search may spend under `control` with `remaining` on its own clock.
pub open spec fn budget_spec(remaining: int, control: TimeControl) -> int {
    match control {
        TimeControl::Depth => 0,
        TimeControl::MoveTime(budget) => budget.total(),
        TimeControl::Clock { increment, .. } => clock_budget(remaining, increment.total()),
    }
}

/// What one move may spend out of `remaining`, spread over `moves_left` moves, with
/// `increment` coming back after it.
#[verifier::rlimit(40)]
pub fn share_of(remaining: TimeSpan, increment: TimeSpan, moves_left: u32) -> (r: TimeSpan)
    requires
        moves_left >= 2,
        increment.total() * INCREMENT_SHARE <= max_total(),
    ensures
        r.total() == share_budget(remaining.total(), increment.total(), moves_left as int),
{
    let reserve = TimeSpan::from_millis(RESERVE_MILLIS);
    let least = TimeSpan::from_millis(MIN_THINK_MILLIS);
    if !reserve.shorter_than(remaining) {
        return least;
    }
    let share = remaining.div(moves_left);
    // not the whole increment: spending under what comes back keeps the clock rising
    let from_increment = increment.mul(INCREMENT_SHARE).div(INCREMENT_PARTS);
    proof {
        let t = remaining.total();
        assert(share.total() <= t / 2) by (nonlinear_arith)
            requires
                share.total() == t / moves_left as int,
                moves_left >= 2,
                t >= 0,
        ;
        assert(from_increment.total() <= increment.total() * 4 / 5) by (nonlinear_arith)
            requires
                from_increment.total() == increment.total() * 4 / 5,
                increment.total() >= 0,
        ;
        assert(remaining.total() <= max_total() && increment.total() * 4 <= max_total());
    }
    let wanted = share.add(from_increment);
    wanted.min(remaining.div(MAX_SHARE_OF_CLOCK)).min(remaining.saturating_sub(reserve)).max(least)
}

/// How many moves what is left is spread over.
pub fn moves_left_for(remaining: TimeSpan) -> (r: u32)
    ensures
        r == moves_left_spec(remaining.total()),
        MOVES_LEFT_MIN <= r <= MOVES_LEFT_MAX,
{
    let secs = remaining.as_secs();
    if secs <= FEWEST_MOVES_LEFT_SECS {
        return MOVES_LEFT_MIN as u32;
    }
    let minutes = secs / MOVES_LEFT_PER_SECS;
    if minutes >= MOVES_LEFT_MAX - MOVES_LEFT_MIN {
        return MOVES_LEFT_MAX as u32;
    }
    (MOVES_LEFT_MIN + minutes) as u32
}

/// What one move may spend with `remaining` on the clock, under `control`.
pub fn budget_from(remaining: TimeSpan, control: TimeControl) -> (r: TimeSpan)
    requires
        control matches TimeControl::Clock { increment, .. } ==> increment.total() * INCREMENT_SHARE <= max_total(),
    ensures
        r.total() == budget_spec(remaining.total(), control),
{
    match control {
        TimeControl::Depth => TimeSpan::zero(),
        TimeControl::MoveTime(budget) => budget,
        // a share of what is left, spread over fewer moves as the clock empties
        TimeControl::Clock { increment, .. } => share_of(remaining, increment, moves_left_for(remaining)),
    }
}

/// The two clocks of a game, and which side is currently burning time.
pub struct GameClock {
    /// What each side has left, white first.
    remaining: [TimeSpan; 2],
    /// The side on the clock and when its turn started; None while paused.
    running: Option<(Color, Instant)>,
    /// Who ran out, once someone has.
    flagged: Option<Color>,
}

/// The slot of a side in the pair of clocks.
pub open spec fn side_index(side: Color) -> int {
    match side {
        Color::White => 0,
        Color::Black => 1,
    }
}

impl GameClock {
    /// What `side` had left when its clock last stopped or started.
    pub closed spec fn stored(&self, side: Color) -> int {
        self.remaining@[side_index(side)].total()
    }

    /// The side on the clock, if one is.
    pub closed spec fn running_side(&self) -> Option<Color> {
        match self.running {
            Some((side, _)) => Some(side),
            None => None,
        }
    }

    /// Who ran out, once someone has.
    pub closed spec fn flagged_side(&self) -> Option<Color> {
        self.flagged
    }

    /// Both sides on the full base time of a clocked control (nothing for any other), not
    /// running.
    pub fn new(control: TimeControl) -> (r: GameClock)
        ensures
            r.stored(Color::White) == r.stored(Color::Black),
            r.stored(Color::White) == match control {
                TimeControl::Clock { base, .. } => base.total(),
                _ => 0,
            },
            r.running_side() is None,
            r.flagged_side() is None,
    {
        let base = match control {
            TimeControl::Clock { base, .. } => base,
            _ => TimeSpan::zero(),
        };
        GameClock { remaining: [base, base], running: None, flagged: None }
    }

    /// Both sides on the clocks a caller already has, not running.
    pub fn with_remaining(white: TimeSpan, black: TimeSpan) -> (r: GameClock)
        ensures
            r.stored(Color::White) == white.total(),
            r.stored(Color::Black) == black.total(),
            r.running_side() is None,
            r.flagged_side() is None,
    {
        GameClock { remaining: [white, black], running: None, flagged: None }
    }

    pub fn is_running(&self) -> (r: bool)
        ensures
            r == (self.running_side() is Some),
    {
        self.running.is_some()
    }

    pub fn flagged(&self) -> (r: Option<Color>)
        ensures
            r == self.flagged_side(),
    {
        self.flagged
    }

    /// Sets what `side` has left, leaving everything else alone.
    pub fn set_remaining(&mut self, side: Color, remaining: TimeSpan)
        ensures
            final(self).stored(side) == remaining.total(),
            final(self).stored(opposite(side)) == old(self).stored(opposite(side)),
            final(self).running_side() == old(self).running_side(),
            final(self).flagged_side() == old(self).flagged_side(),
    {
        self.remaining[side.index()] = remaining;
    }

    /// Puts `side` on the clock from now, unless a flag has already fallen.
    pub fn start(&mut self, side: Color)
        ensures
            final(self).running_side() == if old(self).flagged_side() is None { Some(side) } else { old(self).running_side() },
            final(self).stored(Color::White) == old(self).stored(Color::White),
            final(self).stored(Color::Black) == old(self).stored(Color::Black),
            final(self).flagged_side() == old(self).flagged_side(),
    {
        if self.flagged.is_none() {
            self.running = Some((side, now()));
        }
    }

    /// Takes `spent` off a side's clock, flagging that side if that empties it and no one
    /// has flagged yet.
    pub fn spend(&mut self, side: Color, spent: TimeSpan)
        ensures
            final(self).stored(side) == if old(self).stored(side) > spent.total() { old(self).stored(side) - spent.total() } else { 0 },
            final(self).stored(opposite(side)) == old(self).stored(opposite(side)),
            final(self).running_side() == old(self).running_side(),
            final(self).flagged_side() == if final(self).stored(side) == 0 && old(self).flagged_side() is None {
                Some(side)
            } else {
                old(self).flagged_side()
            },
    {
        let index = side.index();
        let left = self.remaining[index].saturating_sub(spent);
        self.remaining[index] = left;
        if left.is_zero() && self.flagged.is_none() {
            self.flagged = Some(side);
        }
    }

    /// What is left of `stored` once `spent` is charged: never below zero.
    pub open spec fn charged(stored: int, spent: int) -> int {
        if stored > spent {
            stored - spent
        } else {
            0
        }
    }

    /// `after` is `before` with `spent` charged to `side` and the clock stopped: a side
    /// left with nothing flags, unless someone already has.
    pub open spec fn paused_after(before: GameClock, after: GameClock, side: Color, spent: int) -> bool {
        let left = GameClock::charged(before.stored(side), spent);
        &&& after.stored(side) == left
        &&& after.stored(opposite(side)) == before.stored(opposite(side))
        &&& after.running_side() is None
        &&& after.flagged_side() == if left == 0 && before.flagged_side() is None {
            Some(side)
        } else {
            before.flagged_side()
        }
    }

    /// `after` is `before` once `side` has moved, having spent `spent`: the time comes off;
    /// with time still left and no flag down, the increment goes back on and the other side
    /// goes on the clock; otherwise the clock stops, flagging `side` if no one had yet.
    pub open spec fn moved_after(before: GameClock, after: GameClock, side: Color, increment: int, spent: int) -> bool {
        let left = GameClock::charged(before.stored(side), spent);
        if left > 0 && before.flagged_side() is None {
            &&& after.stored(side) == left + increment
            &&& after.stored(opposite(side)) == before.stored(opposite(side))
            &&& after.running_side() == Some(opposite(side))
            &&& after.flagged_side() is None
        } else {
            GameClock::paused_after(before, after, side, spent)
        }
    }

    /// Stops the clock, charging the side to move with what it has spent so far.
    pub fn pause(&mut self)
        ensures
            final(self).running_side() is None,
            final(self).flagged_side() == old(self).flagged_side() || (old(self).flagged_side() is None
                && final(self).flagged_side() == old(self).running_side()),
            old(self).running_side() is None ==> final(self).stored(Color::White) == old(self).stored(Color::White)
                && final(self).stored(Color::Black) == old(self).stored(Color::Black)
                && final(self).flagged_side() == old(self).flagged_side(),
            old(self).running_side() matches Some(side) ==> final(self).stored(side) <= old(self).stored(side)
                && final(self).stored(opposite(side)) == old(self).stored(opposite(side)),
            old(self).running_side() matches Some(side) ==> exists|spent: int|
                0 <= spent && #[trigger] GameClock::paused_after(*old(self), *final(self), side, spent),
    {
        match self.running {
            None => {},
            Some((side, since)) => {
                self.running = None;
                let spent = elapsed_since(&since);
                self.spend(side, spent);
                assert(GameClock::paused_after(*old(self), *self, side, spent.total()));
            },
        }
    }

    /// What `side` has left right now: the side on the clock is counted down live.
    pub fn remaining_now(&self, side: Color) -> (r: TimeSpan)
        ensures
            self.running_side() != Some(side) ==> r.total() == self.stored(side),
            r.total() <= self.stored(side),
            self.running_side() == Some(side) ==> exists|spent: int|
                0 <= spent && r.total() == #[trigger] GameClock::charged(self.stored(side), spent),
    {
        let stored = self.remaining[side.index()];
        match self.running {
            Some((running, since)) => {
                if running == side {
                    let spent = elapsed_since(&since);
                    let left = stored.saturating_sub(spent);
                    assert(left.total() == GameClock::charged(self.stored(side), spent.total()));
                    left
                } else {
                    stored
                }
            },
            None => stored,
        }
    }

    /// `side` has moved: what the move cost comes off, the increment goes back on unless
    /// the flag fell, and the other side goes on the clock. Nothing happens unless `side`
    /// is the one on the clock.
    pub fn move_played(&mut self, side: Color, increment: TimeSpan)
        requires
            old(self).stored(side) + increment.total() <= max_total(),
        ensures
            old(self).running_side() != Some(side) ==> final(self).stored(Color::White) == old(self).stored(Color::White)
                && final(self).stored(Color::Black) == old(self).stored(Color::Black)
                && final(self).running_side() == old(self).running_side()
                && final(self).flagged_side() == old(self).flagged_side(),
            old(self).running_side() == Some(side) ==> {
                &&& final(self).stored(opposite(side)) == old(self).stored(opposite(side))
                &&& final(self).stored(side) <= old(self).stored(side) + increment.total()
                &&& final(self).running_side() == if final(self).flagged_side() is Some { None } else { Some(opposite(side)) }
            },
            old(self).running_side() == Some(side) ==> exists|spent: int|
                0 <= spent && #[trigger] GameClock::moved_after(*old(self), *final(self), side, increment.total(), spent),
    {
        let (running, since) = match self.running {
            Some(entry) => entry,
            None => {
                return;
            },
        };
        if running != side {
            return;
        }
        let spent = elapsed_since(&since);
        self.spend(side, spent);
        // a move made on a dead clock does not earn its increment back
        if self.flagged.is_some() {
            self.running = None;
            assert(GameClock::moved_after(*old(self), *self, side, increment.total(), spent.total()));
            return;
        }
        let index = side.index();
        self.remaining[index] = self.remaining[index].add(increment);
        self.running = Some((side.opponent(), now()));
        assert(GameClock::moved_after(*old(self), *self, side, increment.total(), spent.total()));
    }

    /// Whether the side on the clock has run out, pausing the clock when it has.
    pub fn check_flag(&mut self) -> (r: Option<Color>)
        ensures
            r == final(self).flagged_side(),
            old(self).flagged_side() is Some ==> r == old(self).flagged_side(),
            old(self).running_side() is None ==> *final(self) == *old(self),
            old(self).running_side() matches Some(side) ==> *final(self) == *old(self) || exists|spent: int|
                0 <= spent && #[trigger] GameClock::paused_after(*old(self), *final(self), side, spent),
    {
        match self.running {
            Some((side, _)) => {
                if self.remaining_now(side).is_zero() {
                    self.pause();
                }
            },
            None => {},
        }
        self.flagged
    }

    /// How long `side` may think about the move it is on, out of what it has left.
    pub fn budget_for(&self, side: Color, control: TimeControl) -> (r: TimeSpan)
        requires
            control matches TimeControl::Clock { increment, .. } ==> increment.total() * INCREMENT_SHARE <= max_total(),
        ensures
            self.running_side() != Some(side) ==> r.total() == budget_spec(self.stored(side), control),
            exists|left: int| 0 <= left <= self.stored(side) && r.total() == budget_spec(left, control),
    {
        let left = self.remaining_now(side);
        budget_from(left, control)
    }
}

/// The other side.
pub open spec fn opposite(side: Color) -> Color {
    match side {
        Color::White => Color::Black,
        Color::Black => Color::White,
    }
}

/// A clock as it is shown: minutes and seconds ("9:41"), or seconds and the tenth
/// nearest to what is left ("8.4") once it is under ten seconds.
pub open spec fn remaining_text(total: int) -> Seq<char> {
    let seconds = total / 1_000_000_000;
    if seconds >= 10 {
        let rest = seconds % 60;
        decimal_spec((seconds / 60) as nat) + seq![':'] + decimal_spec((rest / 10) as nat) + decimal_spec((rest % 10) as nat)
    } else {
        let tenths = (total + 50_000_000) / 100_000_000;
        decimal_spec((tenths / 10) as nat) + seq!['.'] + decimal_spec((tenths % 10) as nat)
    }
}

/// A clock as it is shown: "9:41", or "8.4" once it is down to seconds.
///
/// Under ten seconds the tenth is rounded half up on the exact nanoseconds. A display that
/// formats the time as an `f32` with one decimal instead rounds the float's value, which can
/// fall just below the half: 8.45 s then reads "8.4" rather than "8.5" here, and 9.95 s
/// reads "9.9" rather than "10.0" here. This library holds no floating point, so it keeps
/// the exact rounding.
pub fn format_remaining(remaining: TimeSpan) -> (r: String)
    ensures
        r@ == remaining_text(remaining.total()),
{
    let seconds = remaining.as_secs();
    let mut text = String::new();
    if seconds >= 10 {
        let rest = seconds % 60;
        push_decimal(&mut text, (seconds / 60) as u128);
        push_char(&mut text, ':');
        push_decimal(&mut text, (rest / 10) as u128);
        push_decimal(&mut text, (rest % 10) as u128);
    } else {
        let total = remaining.as_nanos();
        let tenths = ((total + 50_000_000) / 100_000_000) as u64;
        push_decimal(&mut text, (tenths / 10) as u128);
        push_char(&mut text, '.');
        push_decimal(&mut text, (tenths % 10) as u128);
    }
    assert(text@ =~= remaining_text(remaining.total()));
    text
}

/// A budget never takes the whole clock: with more than the reserve left, what a move
/// may spend is at least the minimum think time and stays below what is left, and it
/// is never more than a third of the clock unless that third is under the minimum.
pub proof fn law_budget_leaves_time(remaining: int, increment: int, moves_left: int)
    requires
        remaining > RESERVE_MILLIS * 1_000_000,
        increment >= 0,
        moves_left >= 2,
    ensures
        MIN_THINK_MILLIS * 1_000_000 <= share_budget(remaining, increment, moves_left) < remaining,
        share_budget(remaining, increment, moves_left) <= remaining - RESERVE_MILLIS * 1_000_000
            || share_budget(remaining, increment, moves_left) == MIN_THINK_MILLIS * 1_000_000,
        share_budget(remaining, increment, moves_left) <= remaining / 3
            || share_budget(remaining, increment, moves_left) == MIN_THINK_MILLIS * 1_000_000,
{
}

/// The less is left on the clock, the fewer moves it is spread over: a draining clock
/// spends a larger share of itself on each move.
pub proof fn law_fewer_moves_as_the_clock_drains(less: int, more: int)
    requires
        0 <= less <= more,
    ensures
        moves_left_spec(less) <= moves_left_spec(more),
{
    let a = less / 1_000_000_000;
    let b = more / 1_000_000_000;
    vstd::arithmetic::div_mod::lemma_div_is_ordered(less, more, 1_000_000_000);
    if a > 60 {
        assert((a - 60) * 10 <= (b - 60) * 10);
        vstd::arithmetic::div_mod::lemma_div_is_ordered((a - 60) * 10, (b - 60) * 10, 540);
    }
}

} // verus!
