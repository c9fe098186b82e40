use sort_replay::array::Array;
use sort_replay::operation::Operation;
use sort_replay::sorting::frame_budget;

#[test]
fn new_array_counts_up_from_one() {
    let array = Array::new(5);
    assert_eq!(array.get_values(), &[1u16, 2, 3, 4, 5][..]);
    assert_eq!(array.get_reads(), 0);
    assert_eq!(array.get_writes(), 0);
    assert_eq!(array.get_compares(), 0);
    assert_eq!(array.get_swaps(), 0);
}

#[test]
fn new_array_of_no_values_is_empty() {
    let array = Array::new(0);
    assert!(array.get_values().is_empty());
}

#[test]
fn new_array_takes_the_largest_size() {
    let array = Array::new(65535);
    assert_eq!(array.get_values().len(), 65535);
    assert_eq!(array.get_values()[0], 1);
    assert_eq!(array.get_values()[65534], 65535);
}

#[test]
fn read_counts_and_keeps_values() {
    let mut array = Array::new(3);
    array.apply(&Operation::Read(1));
    assert_eq!(array.get_reads(), 1);
    assert_eq!(array.get_writes(), 0);
    assert_eq!(array.get_values(), &[1u16, 2, 3][..]);
}

#[test]
fn write_counts_and_stores_the_value() {
    let mut array = Array::new(3);
    array.apply(&Operation::Write(0, 9));
    assert_eq!(array.get_writes(), 1);
    assert_eq!(array.get_values(), &[9u16, 2, 3][..]);
}

#[test]
fn markers_count_and_keep_values() {
    let mut array = Array::new(3);
    array.apply(&Operation::Compare);
    array.apply(&Operation::Compare);
    array.apply(&Operation::Swap);
    assert_eq!(array.get_compares(), 2);
    assert_eq!(array.get_swaps(), 1);
    assert_eq!(array.get_reads(), 0);
    assert_eq!(array.get_values(), &[1u16, 2, 3][..]);
}

#[test]
fn reset_stats_zeroes_counters_and_keeps_values() {
    let mut array = Array::new(2);
    array.apply(&Operation::Read(0));
    array.apply(&Operation::Write(1, 7));
    array.apply(&Operation::Compare);
    array.apply(&Operation::Swap);
    array.reset_stats();
    assert_eq!(array.get_reads(), 0);
    assert_eq!(array.get_writes(), 0);
    assert_eq!(array.get_compares(), 0);
    assert_eq!(array.get_swaps(), 0);
    assert_eq!(array.get_values(), &[1u16, 7][..]);
}

#[test]
fn frame_budget_rounds_up() {
    assert_eq!(frame_budget(0, 2), 0);
    assert_eq!(frame_budget(1, 2), 1);
    assert_eq!(frame_budget(120, 2), 1);
    assert_eq!(frame_budget(121, 2), 2);
    assert_eq!(frame_budget(240, 2), 2);
    assert_eq!(frame_budget(7200, 1), 120);
    assert_eq!(frame_budget(7201, 1), 121);
    assert_eq!(frame_budget(100, 65535), 1);
}
