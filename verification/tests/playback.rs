use sort_replay::operation::Operation;
use sort_replay::sorting::Sorting;

const SIZES: [usize; 5] = [0, 1, 2, 5, 100];

fn select(sorting: &mut Sorting, which: usize) {
    match which {
        0 => sorting.bubble(),
        1 => sorting.cocktail(),
        2 => sorting.selection(),
        3 => sorting.insertion(),
        4 => sorting.gnome(),
        5 => sorting.cycle(),
        6 => sorting.heap(),
        7 => sorting.shell(),
        8 => sorting.odd_even(),
        _ => sorting.quick_sort(),
    }
}

fn ascending(size: usize) -> Vec<u16> {
    (1..=size as u16).collect()
}

fn descending(size: usize) -> Vec<u16> {
    (1..=size as u16).rev().collect()
}

fn sorted_copy(values: &[u16]) -> Vec<u16> {
    let mut copy = values.to_vec();
    copy.sort();
    copy
}

/// Plays the log to its end and returns it, read off one tick at a time.
fn play_and_collect(sorting: &mut Sorting) -> Vec<Operation> {
    let mut log = Vec::new();
    while sorting.tick() {
        log.push(sorting.operation().unwrap());
    }
    log
}

fn assert_paired(log: &[Operation]) {
    for k in 0..log.len() {
        match log[k] {
            Operation::Compare => {
                assert!(k >= 2);
                assert!(matches!(log[k - 2], Operation::Read(_)));
                assert!(matches!(log[k - 1], Operation::Read(_)));
            }
            Operation::Swap => {
                assert!(k >= 4);
                match (log[k - 4], log[k - 3], log[k - 2], log[k - 1]) {
                    (
                        Operation::Read(left),
                        Operation::Read(right),
                        Operation::Write(to_left, _),
                        Operation::Write(to_right, _),
                    ) => {
                        assert_eq!(left, to_left);
                        assert_eq!(right, to_right);
                    }
                    _ => panic!("a swap marker without its reads and writes"),
                }
            }
            _ => {}
        }
    }
}

fn count(log: &[Operation], kind: fn(&Operation) -> bool) -> usize {
    log.iter().filter(|op| kind(op)).count()
}

#[test]
fn new_controller_starts_in_order() {
    let sorting = Sorting::new(5);
    assert_eq!(sorting.size(), 5);
    assert_eq!(sorting.values(), &[1u16, 2, 3, 4, 5][..]);
    assert_eq!(sorting.operation(), None);
    assert_eq!(sorting.reads(), 0);
    assert_eq!(sorting.writes(), 0);
    assert_eq!(sorting.compares(), 0);
    assert_eq!(sorting.swaps(), 0);
}

#[test]
fn nothing_selected_plays_nothing() {
    let mut sorting = Sorting::new(4);
    assert!(!sorting.tick());
    sorting.flush();
    assert!(sorting.frame(1));
    assert_eq!(sorting.values(), &[1u16, 2, 3, 4][..]);
    assert_eq!(sorting.operation(), None);
}

#[test]
fn reverse_gives_descending_values() {
    for size in SIZES {
        let mut sorting = Sorting::new(size);
        sorting.reverse();
        sorting.flush();
        assert_eq!(sorting.values(), &descending(size)[..]);
        assert_eq!(sorting.writes(), size);
        assert_eq!(sorting.reads(), 0);
        assert_eq!(sorting.compares(), 0);
        assert_eq!(sorting.swaps(), 0);
    }
}

#[test]
fn reverse_records_one_write_per_cell() {
    let mut sorting = Sorting::new(3);
    sorting.reverse();
    let log = play_and_collect(&mut sorting);
    assert_eq!(
        log,
        vec![Operation::Write(0, 3), Operation::Write(1, 2), Operation::Write(2, 1)]
    );
}

#[test]
fn every_algorithm_sorts_reversed_values() {
    for size in SIZES {
        for which in 0..10 {
            let mut sorting = Sorting::new(size);
            sorting.reverse();
            sorting.flush();
            select(&mut sorting, which);
            sorting.flush();
            assert_eq!(sorting.values(), &ascending(size)[..], "algorithm {} size {}", which, size);
        }
    }
}

#[test]
fn every_algorithm_sorts_shuffled_values() {
    for size in SIZES {
        for which in 0..10 {
            for _ in 0..3 {
                let mut sorting = Sorting::new(size);
                sorting.shuffle();
                sorting.flush();
                select(&mut sorting, which);
                sorting.flush();
                assert_eq!(
                    sorting.values(),
                    &ascending(size)[..],
                    "algorithm {} size {}",
                    which,
                    size
                );
            }
        }
    }
}

#[test]
fn every_algorithm_keeps_sorted_values() {
    for size in SIZES {
        for which in 0..10 {
            let mut sorting = Sorting::new(size);
            select(&mut sorting, which);
            sorting.flush();
            assert_eq!(sorting.values(), &ascending(size)[..]);
        }
    }
}

#[test]
fn every_algorithm_sorts_values_with_duplicates() {
    // Reselecting in the middle of an exchange leaves a value twice.
    for which in 0..10 {
        let mut sorting = Sorting::new(6);
        sorting.reverse();
        sorting.flush();
        sorting.bubble();
        for _ in 0..6 {
            assert!(sorting.tick());
        }
        let halfway = sorting.values().to_vec();
        assert_eq!(halfway, vec![5u16, 5, 4, 3, 2, 1]);
        select(&mut sorting, which);
        sorting.flush();
        assert_eq!(sorting.values(), &sorted_copy(&halfway)[..], "algorithm {}", which);
    }
}

#[test]
fn shuffle_rearranges_and_spares_the_last_cell() {
    for size in SIZES {
        for _ in 0..5 {
            let mut sorting = Sorting::new(size);
            sorting.shuffle();
            sorting.flush();
            assert_eq!(sorted_copy(sorting.values()), ascending(size));
            if size > 0 {
                assert_eq!(sorting.values()[size - 1], size as u16);
            }
        }
    }
}

#[test]
fn shuffle_exchanges_each_cell_but_the_last_once() {
    let size = 50;
    let mut sorting = Sorting::new(size);
    sorting.shuffle();
    let log = play_and_collect(&mut sorting);
    assert_eq!(log.len(), 5 * (size - 1));
    for i in 0..size - 1 {
        assert_eq!(log[5 * i], Operation::Read(i));
        match log[5 * i + 1] {
            Operation::Read(other) => assert!(other < size - 1),
            _ => panic!("the second operation of an exchange is a read"),
        }
        assert_eq!(log[5 * i + 4], Operation::Swap);
    }
    assert_paired(&log);
}

#[test]
fn degenerate_sizes_record_nothing() {
    for size in [0usize, 1] {
        for which in 0..10 {
            let mut sorting = Sorting::new(size);
            select(&mut sorting, which);
            assert!(!sorting.tick());
            assert_eq!(sorting.operation(), None);
            assert!(sorting.frame(2));
            sorting.flush();
            assert_eq!(sorting.values(), &ascending(size)[..]);
            assert_eq!(sorting.reads() + sorting.writes() + sorting.compares() + sorting.swaps(), 0);
        }
        let mut sorting = Sorting::new(size);
        sorting.shuffle();
        assert!(!sorting.tick());
        assert_eq!(sorting.values(), &ascending(size)[..]);
    }
}

#[test]
fn one_value_is_played_as_nothing() {
    for which in 0..10 {
        let mut sorting = Sorting::new(1);
        select(&mut sorting, which);
        assert!(!sorting.tick());
        assert_eq!(sorting.operation(), None);
        assert_eq!(sorting.values(), &[1u16][..]);
    }
}

#[test]
fn tick_after_flush_changes_nothing() {
    for size in SIZES {
        for which in 0..10 {
            let mut sorting = Sorting::new(size);
            sorting.reverse();
            sorting.flush();
            select(&mut sorting, which);
            sorting.flush();
            let values = sorting.values().to_vec();
            let counters =
                (sorting.reads(), sorting.writes(), sorting.compares(), sorting.swaps());
            let last = sorting.operation();
            assert!(!sorting.tick());
            assert!(!sorting.tick());
            assert_eq!(sorting.values(), &values[..]);
            assert_eq!(
                (sorting.reads(), sorting.writes(), sorting.compares(), sorting.swaps()),
                counters
            );
            assert_eq!(sorting.operation(), last);
        }
    }
}

#[test]
fn markers_close_their_groups() {
    for size in [2usize, 5, 100] {
        for which in 0..10 {
            let mut sorting = Sorting::new(size);
            sorting.shuffle();
            sorting.flush();
            select(&mut sorting, which);
            let log = play_and_collect(&mut sorting);
            assert!(!log.is_empty());
            assert_paired(&log);
            for op in &log {
                match *op {
                    Operation::Read(index) => assert!(index < size),
                    Operation::Write(index, _) => assert!(index < size),
                    _ => {}
                }
            }
        }
    }
}

#[test]
fn counters_match_the_log() {
    for size in [2usize, 5, 100] {
        for which in 0..10 {
            let mut sorting = Sorting::new(size);
            sorting.reverse();
            sorting.flush();
            select(&mut sorting, which);
            let log = play_and_collect(&mut sorting);
            assert_eq!(sorting.reads(), count(&log, |op| matches!(op, Operation::Read(_))));
            assert_eq!(sorting.writes(), count(&log, |op| matches!(op, Operation::Write(_, _))));
            assert_eq!(sorting.compares(), count(&log, |op| matches!(op, Operation::Compare)));
            assert_eq!(sorting.swaps(), count(&log, |op| matches!(op, Operation::Swap)));
            assert_eq!(
                sorting.reads() + sorting.writes() + sorting.compares() + sorting.swaps(),
                log.len()
            );
        }
    }
}

#[test]
fn reselection_resets_log_cursor_and_counters() {
    let mut sorting = Sorting::new(5);
    sorting.reverse();
    sorting.flush();
    sorting.bubble();
    for _ in 0..7 {
        assert!(sorting.tick());
    }
    assert!(sorting.operation().is_some());
    let values = sorting.values().to_vec();
    sorting.insertion();
    assert_eq!(sorting.operation(), None);
    assert_eq!(sorting.reads(), 0);
    assert_eq!(sorting.writes(), 0);
    assert_eq!(sorting.compares(), 0);
    assert_eq!(sorting.swaps(), 0);
    assert_eq!(sorting.values(), &values[..]);
    assert_eq!(sorting.size(), 5);
    // The new selection records afresh, from the values as they stand.
    assert!(sorting.tick());
    assert_eq!(sorting.operation(), Some(Operation::Read(0)));
    assert_eq!(sorting.reads(), 1);
}

#[test]
fn reset_stats_keeps_log_and_cursor() {
    let mut sorting = Sorting::new(4);
    sorting.reverse();
    assert!(sorting.tick());
    assert!(sorting.tick());
    assert_eq!(sorting.writes(), 2);
    sorting.reset_stats();
    assert_eq!(sorting.writes(), 0);
    assert_eq!(sorting.operation(), Some(Operation::Write(1, 3)));
    assert_eq!(sorting.values(), &[4u16, 3, 3, 4][..]);
    assert!(sorting.tick());
    assert_eq!(sorting.operation(), Some(Operation::Write(2, 2)));
    assert_eq!(sorting.writes(), 1);
    sorting.flush();
    assert_eq!(sorting.writes(), 2);
    assert_eq!(sorting.values(), &[4u16, 3, 2, 1][..]);
}

#[test]
fn tick_applies_one_operation_at_a_time() {
    let mut sorting = Sorting::new(2);
    sorting.reverse();
    sorting.flush();
    sorting.bubble();
    let expected = [
        Operation::Read(0),
        Operation::Read(1),
        Operation::Compare,
        Operation::Read(0),
        Operation::Read(1),
        Operation::Write(0, 1),
        Operation::Write(1, 2),
        Operation::Swap,
        Operation::Read(0),
        Operation::Read(1),
        Operation::Compare,
    ];
    for (applied, operation) in expected.iter().enumerate() {
        assert!(sorting.tick());
        assert_eq!(sorting.operation(), Some(*operation));
        assert_eq!(
            sorting.reads() + sorting.writes() + sorting.compares() + sorting.swaps(),
            applied + 1
        );
    }
    assert!(!sorting.tick());
    assert_eq!(sorting.values(), &[1u16, 2][..]);
}

#[test]
fn values_change_only_with_playback() {
    let mut sorting = Sorting::new(5);
    sorting.reverse();
    assert_eq!(sorting.values(), &[1u16, 2, 3, 4, 5][..]);
    assert!(sorting.tick());
    assert_eq!(sorting.values(), &[5u16, 2, 3, 4, 5][..]);
    sorting.flush();
    sorting.heap();
    assert_eq!(sorting.values(), &[5u16, 4, 3, 2, 1][..]);
    assert!(sorting.tick());
    assert_eq!(sorting.values(), &[5u16, 4, 3, 2, 1][..]);
}

#[test]
fn frames_finish_a_sort_in_two_seconds_of_calls() {
    for which in 0..10 {
        let mut sorting = Sorting::new(100);
        sorting.shuffle();
        sorting.flush();
        select(&mut sorting, which);
        let mut calls = 0;
        let mut applied = Vec::new();
        loop {
            calls += 1;
            let more = sorting.frame(2);
            applied.push(
                sorting.reads() + sorting.writes() + sorting.compares() + sorting.swaps(),
            );
            if !more {
                break;
            }
            assert!(calls <= 121);
        }
        let len = *applied.last().unwrap();
        assert!(calls <= 121, "algorithm {} took {} calls", which, calls);
        assert_eq!(sorting.values(), &ascending(100)[..]);
        let budget = (len + 119) / 120;
        for (call, total) in applied.iter().enumerate() {
            assert_eq!(*total, len.min((call + 1) * budget));
        }
        assert!(!sorting.tick());
    }
}

#[test]
fn frame_plays_its_share_and_reports_the_end() {
    // Reversing 300 values records 300 writes: three per call over one second.
    let mut sorting = Sorting::new(300);
    sorting.reverse();
    for call in 1..=60 {
        assert!(sorting.frame(1));
        assert_eq!(sorting.writes(), 5 * call);
    }
    assert_eq!(sorting.values(), &descending(300)[..]);
    assert!(!sorting.frame(1));
    assert_eq!(sorting.writes(), 300);
}

#[test]
fn frame_stops_short_when_the_log_runs_out() {
    // 250 writes at five per call: the last call finds nothing left.
    let mut sorting = Sorting::new(250);
    sorting.reverse();
    for _ in 0..50 {
        assert!(sorting.frame(1));
    }
    assert_eq!(sorting.writes(), 250);
    assert!(!sorting.frame(1));
    // 7 writes at one per call.
    let mut sorting = Sorting::new(7);
    sorting.reverse();
    for _ in 0..7 {
        assert!(sorting.frame(3));
    }
    assert!(!sorting.frame(3));
    assert_eq!(sorting.values(), &descending(7)[..]);
}

#[test]
fn reverse_then_bubble_on_five_values() {
    let mut sorting = Sorting::new(5);
    sorting.reverse();
    sorting.flush();
    assert_eq!(sorting.values(), &[5u16, 4, 3, 2, 1][..]);
    sorting.bubble();
    sorting.flush();
    assert_eq!(sorting.values(), &[1u16, 2, 3, 4, 5][..]);
    // Ten pairs stand in the wrong order, and each exchange of neighbours
    // mends one; every pass but the last exchanges, and each pass compares
    // all four pairs of neighbours.
    assert_eq!(sorting.swaps(), 10);
    assert_eq!(sorting.compares(), 20);
    assert_eq!(sorting.reads(), 2 * 20 + 2 * 10);
    assert_eq!(sorting.writes(), 2 * 10);
}

#[test]
fn cycle_sort_writes_each_misplaced_value_once() {
    let mut sorting = Sorting::new(5);
    sorting.reverse();
    sorting.flush();
    sorting.cycle();
    sorting.flush();
    assert_eq!(sorting.values(), &[1u16, 2, 3, 4, 5][..]);
    assert_eq!(sorting.writes(), 4);
    assert_eq!(sorting.swaps(), 0);
}

#[test]
fn swaps_write_each_value_to_the_other_cell() {
    for which in 0..10 {
        let mut sorting = Sorting::new(40);
        sorting.shuffle();
        sorting.flush();
        let mut cells = sorting.values().to_vec();
        select(&mut sorting, which);
        let log = play_and_collect(&mut sorting);
        // `history[k]` holds the cells as the first `k` operations leave them.
        let mut history = vec![cells.clone()];
        for op in &log {
            if let Operation::Write(index, value) = *op {
                cells[index] = value;
            }
            history.push(cells.clone());
        }
        for k in 0..log.len() {
            if log[k] == Operation::Swap {
                let before = &history[k - 4];
                match (log[k - 4], log[k - 3]) {
                    (Operation::Read(first), Operation::Read(second)) => {
                        assert_eq!(log[k - 2], Operation::Write(first, before[second]));
                        assert_eq!(log[k - 1], Operation::Write(second, before[first]));
                    }
                    _ => panic!("a swap marker without its reads"),
                }
            }
        }
        assert_eq!(&cells[..], sorting.values());
    }
}

fn inversions(values: &[u16]) -> usize {
    let mut count = 0;
    for j in 0..values.len() {
        for i in 0..j {
            if values[i] > values[j] {
                count += 1;
            }
        }
    }
    count
}

/// Shuffles `size` values, selects an algorithm and plays it; returns the
/// values it started from and the log.
fn record(size: usize, which: usize) -> (Vec<u16>, Vec<Operation>) {
    let mut sorting = Sorting::new(size);
    sorting.shuffle();
    sorting.flush();
    let start = sorting.values().to_vec();
    select(&mut sorting, which);
    let log = play_and_collect(&mut sorting);
    assert_eq!(sorting.values(), &ascending(size)[..]);
    (start, log)
}

fn swapped_cells(log: &[Operation]) -> Vec<(usize, usize)> {
    let mut cells = Vec::new();
    for k in 0..log.len() {
        if log[k] == Operation::Swap {
            match (log[k - 4], log[k - 3]) {
                (Operation::Read(first), Operation::Read(second)) => cells.push((first, second)),
                _ => panic!("a swap marker without its reads"),
            }
        }
    }
    cells
}

fn compares(log: &[Operation]) -> usize {
    count(log, |op| matches!(op, Operation::Compare))
}

fn swaps(log: &[Operation]) -> usize {
    count(log, |op| matches!(op, Operation::Swap))
}

#[test]
fn neighbour_sorts_exchange_once_for_each_pair_out_of_order() {
    // bubble, cocktail, insertion, gnome, odd-even
    for which in [0usize, 1, 3, 4, 8] {
        for size in [2usize, 3, 5, 40] {
            let (start, log) = record(size, which);
            assert_eq!(swaps(&log), inversions(&start), "algorithm {}", which);
            for (first, second) in swapped_cells(&log) {
                assert_eq!(second, first + 1);
            }
            assert_eq!(log[1], Operation::Read(if which == 8 && size >= 3 { 2 } else { 1 }));
        }
    }
}

#[test]
fn passes_end_with_a_pass_that_exchanges_nothing() {
    // bubble, cocktail, odd-even
    for which in [0usize, 1, 8] {
        for size in [2usize, 3, 5, 40] {
            let (_, log) = record(size, which);
            let last_pass = &log[log.len() - 3 * (size - 1)..];
            assert_eq!(swaps(last_pass), 0);
            assert_eq!(compares(last_pass), size - 1);
        }
    }
}

#[test]
fn cocktail_makes_an_odd_number_of_passes() {
    for size in [2usize, 3, 5, 40] {
        let (_, log) = record(size, 1);
        assert_eq!(compares(&log) % (size - 1), 0);
        assert_eq!(compares(&log) / (size - 1) % 2, 1);
    }
}

#[test]
fn insertion_and_gnome_differ_in_their_comparisons() {
    for size in [2usize, 3, 5, 40] {
        let (_, log) = record(size, 3);
        assert!(compares(&log) >= swaps(&log));
        assert!(compares(&log) <= swaps(&log) + size - 1);
        let (_, log) = record(size, 4);
        assert!(compares(&log) >= swaps(&log) + size - 1);
        assert!(compares(&log) <= 2 * swaps(&log) + size - 1);
    }
    // On two values in the wrong order the gnome looks once more.
    let mut sorting = Sorting::new(2);
    sorting.reverse();
    sorting.flush();
    sorting.insertion();
    sorting.flush();
    assert_eq!((sorting.compares(), sorting.swaps()), (1, 1));
    sorting.reverse();
    sorting.flush();
    sorting.gnome();
    sorting.flush();
    assert_eq!((sorting.compares(), sorting.swaps()), (2, 1));
}

#[test]
fn selection_compares_every_pair_once() {
    for size in [2usize, 3, 5, 40] {
        let (_, log) = record(size, 2);
        assert_eq!(compares(&log), size * (size - 1) / 2);
        assert!(swaps(&log) <= size - 1);
        for (first, second) in swapped_cells(&log) {
            assert!(first < second);
        }
        assert_eq!(&log[..2], &[Operation::Read(0), Operation::Read(1)][..]);
    }
}

#[test]
fn shell_starts_half_the_size_apart_and_ends_on_neighbours() {
    for size in [2usize, 3, 5, 40] {
        let (_, log) = record(size, 7);
        assert_eq!(&log[..2], &[Operation::Read(0), Operation::Read(size / 2)][..]);
        for (first, second) in swapped_cells(&log) {
            assert!(first < second && second <= first + size / 2);
        }
        let n = log.len();
        let last = match log[n - 1] {
            Operation::Compare => (log[n - 3], log[n - 2]),
            Operation::Swap => (log[n - 5], log[n - 4]),
            _ => panic!("the log ends with a marker"),
        };
        match last {
            (Operation::Read(first), Operation::Read(second)) => assert_eq!(second, first + 1),
            _ => panic!("a marker without its reads"),
        }
    }
}

#[test]
fn heap_starts_at_the_last_parent_and_ends_at_the_root() {
    for size in [2usize, 3, 5, 40] {
        let (_, log) = record(size, 6);
        let parent = size / 2 - 1;
        assert_eq!(
            &log[..3],
            &[Operation::Read(2 * parent + 1), Operation::Read(parent), Operation::Compare][..]
        );
        let n = log.len();
        assert_eq!(log[n - 1], Operation::Swap);
        assert_eq!(&log[n - 5..n - 3], &[Operation::Read(0), Operation::Read(1)][..]);
    }
}

#[test]
fn quicksort_reads_its_pivot_first_and_records_no_compare() {
    for size in [2usize, 3, 5, 40] {
        let (_, log) = record(size, 9);
        assert_eq!(&log[..2], &[Operation::Read(size - 1), Operation::Read(0)][..]);
        assert_eq!(compares(&log), 0);
    }
}

#[test]
fn cycle_sort_records_no_swap() {
    for size in [2usize, 3, 5, 40] {
        let (_, log) = record(size, 5);
        assert_eq!(&log[..2], &[Operation::Read(0), Operation::Read(1)][..]);
        assert_eq!(swaps(&log), 0);
    }
}

#[test]
fn bubble_passes_upwards_only() {
    for size in [2usize, 3, 5, 40] {
        let (_, log) = record(size, 0);
        let mut below: Option<usize> = None;
        for k in 0..log.len() {
            match log[k] {
                Operation::Compare => {
                    let first = match log[k - 2] {
                        Operation::Read(first) => first,
                        _ => panic!("a compare marker without its reads"),
                    };
                    assert_eq!(log[k - 1], Operation::Read(first + 1));
                    assert!(first == 0 || below == Some(first - 1));
                    below = Some(first);
                }
                _ => {}
            }
        }
    }
}
