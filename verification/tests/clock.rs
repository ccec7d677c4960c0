use std::time::{Duration, Instant};

use chess_engine::board::piece::Color;
use chess_engine::clock::{GameClock, MIN_THINK_MILLIS, TimeControl, TimeSpan, budget_from, format_remaining, moves_left_for, share_of};

fn ten_minutes() -> TimeControl {
    TimeControl::clock(10, 0)
}

#[test]
fn a_fresh_clock_gives_both_sides_the_base_time() {
    let clock = GameClock::new(ten_minutes());
    assert_eq!(clock.remaining_now(Color::White), TimeSpan::from_secs(600));
    assert_eq!(clock.remaining_now(Color::Black), TimeSpan::from_secs(600));
    assert!(!clock.is_running());
}

// a full ten minutes is spread over the most moves there are: 24 seconds, not the 30 a
// flat twentieth would give
#[test]
fn a_budget_is_a_share_of_what_is_left() {
    let clock = GameClock::new(ten_minutes());
    assert_eq!(clock.budget_for(Color::White, ten_minutes()), TimeSpan::from_secs(24));
}

// and the same clock down to its last minute is spread over the fewest
#[test]
fn a_draining_clock_spends_a_larger_share_per_move() {
    let mut clock = GameClock::new(ten_minutes());
    let full = clock.budget_for(Color::White, ten_minutes());

    clock.set_remaining(Color::White, TimeSpan::from_secs(60));
    let low = clock.budget_for(Color::White, ten_minutes());

    assert_eq!(low, TimeSpan::from_secs(4));
    assert!(low.mul(10) > full, "{low:?} against {full:?}");
}

// a share of what is left can only ever shrink what is left, never empty it
#[test]
fn spending_the_budget_every_move_never_runs_the_clock_out() {
    let mut clock = GameClock::new(ten_minutes());
    for _ in 0..100 {
        let left = clock.remaining_now(Color::White);
        let budget = clock.budget_for(Color::White, ten_minutes());
        assert!(budget < left, "{budget:?} of a {left:?} clock");
        clock.set_remaining(Color::White, left.saturating_sub(budget));
    }
    assert!(clock.remaining_now(Color::White) > TimeSpan::zero());
}

#[test]
fn a_short_clock_does_not_spend_its_whole_increment() {
    let control = TimeControl::clock(1, 30);
    let mut clock = GameClock::new(control);
    clock.set_remaining(Color::White, TimeSpan::from_secs(6));
    let budget = clock.budget_for(Color::White, control);
    assert!(budget <= TimeSpan::from_secs(2), "{budget:?} of a 6s clock");
}

#[test]
fn a_nearly_dead_clock_still_allows_a_search() {
    let mut clock = GameClock::new(ten_minutes());
    clock.set_remaining(Color::White, TimeSpan::from_millis(20));
    let budget = clock.budget_for(Color::White, ten_minutes());
    assert_eq!(budget, TimeSpan::from_millis(MIN_THINK_MILLIS));
}

#[test]
fn a_fixed_move_time_ignores_the_clock() {
    let clock = GameClock::new(ten_minutes());
    let control = TimeControl::MoveTime(TimeSpan::from_secs(15));
    assert_eq!(clock.budget_for(Color::White, control), TimeSpan::from_secs(15));
}

#[test]
fn a_clock_reads_as_minutes_until_the_last_ten_seconds() {
    assert_eq!(format_remaining(TimeSpan::from_secs(601)), "10:01");
    assert_eq!(format_remaining(TimeSpan::from_secs(61)), "1:01");
    assert_eq!(format_remaining(TimeSpan::from_millis(8_400)), "8.4");
}

// a clock that is not running stands still, and a running one only ever goes down
#[test]
fn a_paused_clock_keeps_what_it_had() {
    let mut clock = GameClock::with_remaining(TimeSpan::from_secs(30), TimeSpan::from_secs(40));
    clock.start(Color::White);
    assert!(clock.is_running());
    assert!(clock.remaining_now(Color::White) <= TimeSpan::from_secs(30));
    assert_eq!(clock.remaining_now(Color::Black), TimeSpan::from_secs(40));
    clock.pause();
    assert!(!clock.is_running());
    let kept = clock.remaining_now(Color::White);
    assert_eq!(clock.remaining_now(Color::White), kept);
    assert_eq!(clock.flagged(), None);
}

// an emptied clock flags its side, and the flag stays with the first side to fall
#[test]
fn spending_a_whole_clock_flags_that_side() {
    let mut clock = GameClock::with_remaining(TimeSpan::from_millis(10), TimeSpan::from_millis(10));
    clock.spend(Color::Black, TimeSpan::from_millis(25));
    assert_eq!(clock.flagged(), Some(Color::Black));
    assert_eq!(clock.remaining_now(Color::Black), TimeSpan::zero());
    clock.spend(Color::White, TimeSpan::from_millis(25));
    assert_eq!(clock.flagged(), Some(Color::Black));
}

// what the clock says under the other two controls
#[test]
fn a_depth_control_spends_nothing_and_runs_no_clock() {
    let clock = GameClock::new(TimeControl::Depth);
    assert_eq!(clock.budget_for(Color::White, TimeControl::Depth), TimeSpan::zero());
    assert_eq!(clock.remaining_now(Color::White), TimeSpan::zero());
    assert!(!TimeControl::Depth.is_clocked());
    assert!(ten_minutes().is_clocked());
}

// the tenth shown is the nearest one, and the minutes take over at ten seconds
#[test]
fn the_last_seconds_round_to_the_nearest_tenth() {
    assert_eq!(format_remaining(TimeSpan::from_millis(9_960)), "10.0");
    assert_eq!(format_remaining(TimeSpan::from_millis(10_000)), "0:10");
    assert_eq!(format_remaining(TimeSpan::from_millis(49)), "0.0");
    assert_eq!(format_remaining(TimeSpan::from_millis(50)), "0.1");
}

#[test]
fn the_moves_left_rise_with_the_clock_between_one_and_ten_minutes() {
    assert_eq!(moves_left_for(TimeSpan::from_secs(0)), 15);
    assert_eq!(moves_left_for(TimeSpan::from_secs(60)), 15);
    assert_eq!(moves_left_for(TimeSpan::from_secs(61)), 16);
    assert_eq!(moves_left_for(TimeSpan::from_secs(119)), 16);
    assert_eq!(moves_left_for(TimeSpan::from_secs(120)), 17);
    assert_eq!(moves_left_for(TimeSpan::from_secs(330)), 20);
    assert_eq!(moves_left_for(TimeSpan::from_secs(599)), 24);
    assert_eq!(moves_left_for(TimeSpan::from_secs(600)), 25);
    assert_eq!(moves_left_for(TimeSpan::from_secs(7200)), 25);
}

#[test]
fn a_share_is_capped_by_a_third_and_by_the_reserve() {
    // 60 s over 20 moves is 3 s, and 4/5 of a 10 s increment adds 8 s
    assert_eq!(share_of(TimeSpan::from_secs(60), TimeSpan::from_secs(10), 20), TimeSpan::from_secs(11));
    // a 60 s increment would want 51 s: a third of the clock is all it gets
    assert_eq!(share_of(TimeSpan::from_secs(60), TimeSpan::from_secs(60), 20), TimeSpan::from_secs(20));
    // 0.3 s left: a third is 0.1 s, above what the reserve leaves over (0.15 s)
    assert_eq!(share_of(TimeSpan::from_millis(300), TimeSpan::zero(), 2), TimeSpan::from_millis(100));
    // at the reserve and under it only the minimum is left
    assert_eq!(share_of(TimeSpan::from_millis(150), TimeSpan::zero(), 20), TimeSpan::from_millis(MIN_THINK_MILLIS));
    assert_eq!(share_of(TimeSpan::from_millis(160), TimeSpan::zero(), 20), TimeSpan::from_millis(MIN_THINK_MILLIS));
}

#[test]
fn a_budget_stays_under_what_is_left() {
    for millis in [151u64, 200, 500, 1_000, 30_000, 59_999, 60_000, 120_000, 600_000, 3_600_000] {
        let left = TimeSpan::from_millis(millis);
        let budget = budget_from(left, TimeControl::clock(5, 3));
        assert!(budget.shorter_than(left), "{millis} ms");
        assert!(!budget.shorter_than(TimeSpan::from_millis(MIN_THINK_MILLIS)), "{millis} ms");
    }
}

// the clock is read live, so a test has to let some real time go by
fn wait(milliseconds: u64) {
    let start = Instant::now();
    while start.elapsed() < Duration::from_millis(milliseconds) {}
}

#[test]
fn only_the_side_to_move_burns_time() {
    let mut clock = GameClock::new(ten_minutes());
    clock.start(Color::White);
    clock.set_remaining(Color::White, TimeSpan::from_secs(100));

    wait(30);

    assert!(clock.remaining_now(Color::White).shorter_than(TimeSpan::from_secs(100)));
    assert_eq!(clock.remaining_now(Color::Black), TimeSpan::from_secs(600));
}

#[test]
fn the_increment_goes_back_on_after_a_move() {
    let mut clock = GameClock::new(TimeControl::clock(10, 5));
    clock.start(Color::White);
    clock.move_played(Color::White, TimeSpan::from_secs(5));

    // the move itself cost next to nothing, so the five seconds are nearly all profit
    assert!(TimeSpan::from_secs(604).shorter_than(clock.remaining_now(Color::White)));

    // and black is the one on the clock now, so it is black's time running down
    wait(30);

    assert!(clock.remaining_now(Color::Black).shorter_than(TimeSpan::from_secs(600)));
    assert!(TimeSpan::from_secs(604).shorter_than(clock.remaining_now(Color::White)));
}

#[test]
fn running_out_flags_that_side() {
    let mut clock = GameClock::new(ten_minutes());
    clock.set_remaining(Color::White, TimeSpan::from_millis(10));
    clock.start(Color::White);

    wait(30);

    assert_eq!(clock.check_flag(), Some(Color::White));
    assert!(!clock.is_running(), "the clock kept running past a flag");
}
