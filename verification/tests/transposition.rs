use chess_engine::board::chess_move::Move;
use chess_engine::board::piece::{Color, Piece, PieceType};
use chess_engine::evaluate::MATE;
use chess_engine::transposition::{NodeType, TranspositionTable};

// a table small enough to make one per test
fn table() -> TranspositionTable {
    TranspositionTable::new(1)
}

fn a_move() -> Move {
    Move::normal(4, 12, Piece::new(PieceType::King, Color::White), None)
}

// the whole window, for probes that are only asking what is stored
const WIDE: i32 = 1_000_000;

#[test]
fn an_exact_score_comes_back_as_it_went_in() {
    let mut table = table();
    table.store(0x1234, 4, 0, 55, NodeType::Exact, Some(a_move()));
    let probe = table.probe(0x1234, 4, 0, -WIDE, WIDE);
    assert_eq!(probe.cutoff, Some(55));
    assert_eq!(probe.best_move, Some(a_move()));
}

#[test]
fn a_position_does_not_answer_for_another_one_in_its_slot() {
    let mut table = table();
    table.store(0, 4, 0, 55, NodeType::Exact, Some(a_move()));
    let probe = table.probe(1 << 40, 4, 0, -WIDE, WIDE);
    assert_eq!(probe.cutoff, None);
    assert_eq!(probe.best_move, None);
}

#[test]
fn a_shallower_entry_gives_up_its_move_and_not_its_score() {
    let mut table = table();
    table.store(0x1234, 2, 0, 55, NodeType::Exact, Some(a_move()));
    let probe = table.probe(0x1234, 5, 0, -WIDE, WIDE);
    assert_eq!(probe.cutoff, None);
    assert_eq!(probe.best_move, Some(a_move()));
}

#[test]
fn a_floor_only_answers_the_windows_it_clears() {
    let mut table = table();
    table.store(0x1234, 4, 0, 55, NodeType::LowerBound, None);
    assert_eq!(table.probe(0x1234, 4, 0, 0, 50).cutoff, Some(55));
    assert_eq!(table.probe(0x1234, 4, 0, 0, 90).cutoff, None);
}

#[test]
fn a_ceiling_only_answers_the_windows_it_stays_under() {
    let mut table = table();
    table.store(0x1234, 4, 0, 55, NodeType::UpperBound, None);
    assert_eq!(table.probe(0x1234, 4, 0, 60, 100).cutoff, Some(55));
    assert_eq!(table.probe(0x1234, 4, 0, 20, 100).cutoff, None);
}

#[test]
fn a_mate_is_read_back_from_the_ply_that_asks() {
    let mut table = table();
    table.store(0x1234, 4, 3, MATE - 5, NodeType::Exact, None);
    assert_eq!(table.probe(0x1234, 4, 1, -WIDE, WIDE).cutoff, Some(MATE - 3));
    assert_eq!(table.probe(0x1234, 4, 3, -WIDE, WIDE).cutoff, Some(MATE - 5));
}

#[test]
fn a_shallower_search_does_not_push_out_a_deeper_one() {
    let mut table = table();
    table.store(0x1234, 6, 0, 55, NodeType::Exact, None);
    table.store(0x1234, 2, 0, 12, NodeType::Exact, None);
    assert_eq!(table.probe(0x1234, 6, 0, -WIDE, WIDE).cutoff, Some(55));
}

#[test]
fn the_next_search_may_write_over_what_this_one_stored() {
    let mut table = table();
    table.store(0x1234, 6, 0, 55, NodeType::Exact, None);
    table.start_search();
    table.store(0x1234, 2, 0, 12, NodeType::Exact, None);
    assert_eq!(table.probe(0x1234, 2, 0, -WIDE, WIDE).cutoff, Some(12));
}

// a slot written once is a slot written, and only the probes that answered a node count
#[test]
fn the_counters_follow_what_the_table_did() {
    let mut table = table();
    assert_eq!(table.filled(), 0);

    table.store(0x1234, 4, 0, 55, NodeType::Exact, None);
    table.probe(0x1234, 4, 0, -WIDE, WIDE);
    table.probe(0x5678, 4, 0, -WIDE, WIDE);

    assert!(table.filled() > 0);
    assert_eq!(table.cutoffs(), 1);

    table.start_search();
    assert_eq!(table.cutoffs(), 0);
}

// a mate on the losing side is counted the same way, from the other end
#[test]
fn a_mate_against_is_read_back_from_the_ply_that_asks() {
    let mut table = table();
    table.store(0x99, 4, 2, -(MATE - 4), NodeType::Exact, None);
    assert_eq!(table.probe(0x99, 4, 0, -WIDE, WIDE).cutoff, Some(-(MATE - 2)));
}

// the table is a power of two of slots, as large as fits the memory asked for
#[test]
fn the_table_is_a_power_of_two_of_slots() {
    let small = TranspositionTable::new(1);
    assert!(small.slot_count().is_power_of_two());
    let larger = TranspositionTable::new(2);
    assert_eq!(larger.slot_count(), 2 * small.slot_count());
    // a size of nothing still gets the one megabyte
    assert_eq!(TranspositionTable::new(0).slot_count(), small.slot_count());
}

// rewriting a slot counts it once
#[test]
fn a_rewritten_slot_is_filled_once() {
    let mut table = table();
    table.store(7, 1, 0, 1, NodeType::Exact, None);
    table.store(7, 3, 0, 2, NodeType::Exact, None);
    assert_eq!(table.filled(), 1);
    assert_eq!(table.best_move(7), None);
    table.store(7, 5, 0, 3, NodeType::Exact, Some(a_move()));
    assert_eq!(table.best_move(7), Some(a_move()));
}

#[test]
fn a_store_leaves_the_other_slots_alone() {
    let mut table = table();
    table.store(3, 4, 0, 10, NodeType::Exact, Some(a_move()));
    table.store(5, 6, 0, -20, NodeType::Exact, None);
    assert_eq!(table.probe(3, 4, 0, -WIDE, WIDE).cutoff, Some(10));
    assert_eq!(table.probe(3, 4, 0, -WIDE, WIDE).best_move, Some(a_move()));
    assert_eq!(table.probe(5, 6, 0, -WIDE, WIDE).cutoff, Some(-20));
    assert_eq!(table.filled(), 2);
}
