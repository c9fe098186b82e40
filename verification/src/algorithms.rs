use vstd::prelude::*;
use crate::operation::{
    Operation, mending, calm, swaps_in, compares_in, compare_group, swap_group,
    lemma_nothing_appended,
};
use crate::sorting::Sorting;
use crate::order::{
    is_sorted, exchanged, weight, weight_limit, capped, floored, dominates, heap_from, heap_but,
    lemma_adjacent_sorted, lemma_weight_bound, lemma_exchange_gains, lemma_exchange_keeps_values,
    lemma_root_is_largest, lemma_sink, lemma_sunk, inversions, pairs, lemma_neighbours_mend_one,
    lemma_sorted_has_none,
};
use crate::ranks::{
    below, astray, lemma_counts_front, lemma_counts_exchange, lemma_none_below, lemma_run_fits,
    lemma_place,
};

verus! {

/// Passes over all neighbours, exchanging those out of order, until a pass
/// exchanges nothing.
pub struct BubbleSort;

/// Bubble sort in both directions: a pass upwards, then a pass downwards,
/// until an upward pass exchanges nothing.
pub struct CocktailSort;

/// Exchanges each cell in turn with the smallest value at or after it.
pub struct SelectionSort;

/// Lets each value in turn sink, by exchanges of neighbours, into the sorted
/// cells before it.
pub struct InsertionSort;

/// Walks up while neighbours are in order, and exchanges and steps back
/// where they are not.
pub struct GnomeSort;

/// Writes each value straight to the cell where it belongs and carries on
/// with the value found there, until the cycle closes.
pub struct CycleSort;

/// Builds a binary max-heap in place, then moves its root behind the heap
/// again and again.
pub struct HeapSort;

/// Insertion sort over cells a gap apart, with the gap halved from half the
/// size down to one.
pub struct ShellSort;

/// Passes over the neighbours that start at odd cells, then over those that
/// start at even cells, until neither pass exchanges anything.
pub struct OddEvenSort;

/// Quicksort with Lomuto's partition around the last value of the range.
pub struct QuickSort;

/// The part of `log` after `before` starts with the reads of cells `first`
/// and `second`.
pub open spec fn starts_with(
    before: Seq<Operation>,
    log: Seq<Operation>,
    first: usize,
    second: usize,
) -> bool {
    &&& before.len() + 1 < log.len()
    &&& log[before.len() as int] == Operation::Read(first)
    &&& log[before.len() as int + 1] == Operation::Read(second)
}

/// What an algorithm that exchanges neighbours appends to `before`: every
/// exchange is of two neighbours that stood in the wrong order, so there are
/// as many exchanges as pairs stood in the wrong order in `work`.
pub open spec fn by_neighbours(
    values: Seq<u16>,
    before: Seq<Operation>,
    log: Seq<Operation>,
    work: Seq<u16>,
) -> bool {
    &&& mending(values, log, before.len() as int, 1)
    &&& swaps_in(log) == swaps_in(before) + inversions(work)
}

/// The log ends with a comparison of every pair of neighbours in which
/// nothing was exchanged: its last `3 * (size - 1)` operations hold no
/// `Swap`.
pub open spec fn ends_calm(log: Seq<Operation>, size: nat) -> bool {
    calm(log, log.len() - 3 * (size - 1))
}

/// An odd number of units: `(2 * rounds + 1) * unit`.
pub open spec fn odd_times(rounds: nat, unit: int) -> int {
    (2 * rounds + 1) * unit
}

/// Where position `k` of the log is a `Compare`, it compares cells 0 and 1,
/// or the pair of neighbours one cell up from the pair that the group before
/// it compared or exchanged.
pub open spec fn steps_up_at(log: Seq<Operation>, k: int) -> bool {
    log[k] is Compare ==> k >= 2 && match (log[k - 2], log[k - 1]) {
        (Operation::Read(first), Operation::Read(second)) => {
            &&& second == first + 1
            &&& first == 0 || (k >= 5 && log[k - 3] is Compare && log[k - 5] == Operation::Read(
                (first - 1) as usize,
            )) || (k >= 7 && log[k - 3] is Swap && log[k - 7] == Operation::Read(
                (first - 1) as usize,
            ))
        },
        _ => false,
    }
}

/// From position `from` on, every pass over the neighbours goes upwards: a
/// comparison is of cells 0 and 1, or of the pair one cell up from the pair
/// before it.
#[verifier::opaque]
pub open spec fn upward(log: Seq<Operation>, from: int) -> bool {
    forall|k: int| 0 <= from <= k < log.len() ==> #[trigger] steps_up_at(log, k)
}

/// The log ends with the comparison, or the exchange, of cell `first` and
/// its neighbour.
pub open spec fn ends_on(log: Seq<Operation>, first: usize) -> bool {
    &&& log.len() >= 3
    &&& match log.last() {
        Operation::Compare => log[log.len() - 3] == Operation::Read(first),
        Operation::Swap => log.len() >= 5 && log[log.len() - 5] == Operation::Read(first),
        _ => false,
    }
}

/// The comparison of cell `first` and its neighbour keeps an upward log
/// upward, where `first` is 0 or the log ends on the cell before it.
pub proof fn lemma_upward_compare(log: Seq<Operation>, from: int, first: usize)
    requires
        upward(log, from),
        0 <= from <= log.len(),
        first == 0 || ends_on(log, (first - 1) as usize),
        first < usize::MAX,
    ensures
        upward(log + compare_group(first, (first + 1) as usize), from),
        ends_on(log + compare_group(first, (first + 1) as usize), first),
{
    reveal(upward);
    let longer = log + compare_group(first, (first + 1) as usize);
    assert forall|k: int| 0 <= from <= k < longer.len() implies #[trigger] steps_up_at(
        longer,
        k,
    ) by {
        if k < log.len() {
            assert(steps_up_at(log, k));
        }
    }
}

/// The exchange of cell `first` and its neighbour, right after their
/// comparison, keeps an upward log upward.
pub proof fn lemma_upward_swap(log: Seq<Operation>, from: int, first: usize, a: u16, b: u16)
    requires
        upward(log, from),
        0 <= from <= log.len(),
        first < usize::MAX,
    ensures
        upward(log + swap_group(first, (first + 1) as usize, a, b), from),
        ends_on(log + swap_group(first, (first + 1) as usize, a, b), first),
{
    reveal(upward);
    let longer = log + swap_group(first, (first + 1) as usize, a, b);
    assert forall|k: int| 0 <= from <= k < longer.len() implies #[trigger] steps_up_at(
        longer,
        k,
    ) by {
        if k < log.len() {
            assert(steps_up_at(log, k));
        }
    }
}

/// What bubble sort appends to `before`, on two values or more: it starts
/// by comparing cells 0 and 1, passes upwards only, exchanges neighbours
/// only, and ends with a pass in which nothing is exchanged.
pub open spec fn records_bubble(
    values: Seq<u16>,
    before: Seq<Operation>,
    log: Seq<Operation>,
    work: Seq<u16>,
) -> bool {
    work.len() >= 2 ==> {
        &&& by_neighbours(values, before, log, work)
        &&& starts_with(before, log, 0, 1)
        &&& upward(log, before.len() as int)
        &&& ends_calm(log, work.len())
    }
}

/// What cocktail sort appends to `before`, on two values or more: as bubble
/// sort, and with an odd number of passes, since every pass downwards
/// follows a pass upwards and the last pass goes upwards.
pub open spec fn records_cocktail(
    values: Seq<u16>,
    before: Seq<Operation>,
    log: Seq<Operation>,
    work: Seq<u16>,
) -> bool {
    work.len() >= 2 ==> {
        &&& by_neighbours(values, before, log, work)
        &&& starts_with(before, log, 0, 1)
        &&& ends_calm(log, work.len())
        &&& exists|rounds: nat|
            compares_in(log) == compares_in(before) + #[trigger] odd_times(rounds, work.len() - 1)
    }
}

/// What odd-even sort appends to `before`, on two values or more: it starts
/// with the first pair that begins at an odd cell, where there is one,
/// exchanges neighbours only, and ends with a pass over the odd pairs and a
/// pass over the even pairs in which nothing is exchanged.
pub open spec fn records_odd_even(
    values: Seq<u16>,
    before: Seq<Operation>,
    log: Seq<Operation>,
    work: Seq<u16>,
) -> bool {
    work.len() >= 2 ==> {
        &&& by_neighbours(values, before, log, work)
        &&& if work.len() >= 3 {
            starts_with(before, log, 1, 2)
        } else {
            starts_with(before, log, 0, 1)
        }
        &&& ends_calm(log, work.len())
    }
}

/// What insertion sort appends to `before`, on two values or more: it
/// exchanges neighbours only, and every comparison but at most one for each
/// value after the first leads to an exchange.
pub open spec fn records_insertion(
    values: Seq<u16>,
    before: Seq<Operation>,
    log: Seq<Operation>,
    work: Seq<u16>,
) -> bool {
    work.len() >= 2 ==> {
        &&& by_neighbours(values, before, log, work)
        &&& starts_with(before, log, 0, 1)
        &&& compares_in(log) - compares_in(before) >= swaps_in(log) - swaps_in(before)
        &&& compares_in(log) - compares_in(before) <= swaps_in(log) - swaps_in(before) + work.len()
            - 1
    }
}

/// What gnome sort appends to `before`, on two values or more: it exchanges
/// neighbours only, and it compares once for every step up and every step
/// back but the steps up from cell 0.
pub open spec fn records_gnome(
    values: Seq<u16>,
    before: Seq<Operation>,
    log: Seq<Operation>,
    work: Seq<u16>,
) -> bool {
    work.len() >= 2 ==> {
        &&& by_neighbours(values, before, log, work)
        &&& starts_with(before, log, 0, 1)
        &&& compares_in(log) - compares_in(before) >= swaps_in(log) - swaps_in(before) + work.len()
            - 1
        &&& compares_in(log) - compares_in(before) <= 2 * (swaps_in(log) - swaps_in(before))
            + work.len() - 1
    }
}

/// What selection sort appends to `before`, on two values or more: one
/// comparison for every pair of cells, and at most one exchange for each cell
/// but the last, each of a cell with a later cell that held less.
pub open spec fn records_selection(
    values: Seq<u16>,
    before: Seq<Operation>,
    log: Seq<Operation>,
    work: Seq<u16>,
) -> bool {
    work.len() >= 2 ==> {
        &&& mending(values, log, before.len() as int, work.len() as int)
        &&& starts_with(before, log, 0, 1)
        &&& compares_in(log) == compares_in(before) + pairs(work.len())
        &&& swaps_in(log) - swaps_in(before) <= work.len() - 1
    }
}

/// The log ends with a comparison or an exchange of two neighbours.
pub open spec fn ends_on_neighbours(log: Seq<Operation>) -> bool {
    &&& log.len() >= 3
    &&& match log.last() {
        Operation::Compare => match (log[log.len() - 3], log[log.len() - 2]) {
            (Operation::Read(first), Operation::Read(second)) => second == first + 1,
            _ => false,
        },
        Operation::Swap => log.len() >= 5 && match (log[log.len() - 5], log[log.len() - 4]) {
            (Operation::Read(first), Operation::Read(second)) => second == first + 1,
            _ => false,
        },
        _ => false,
    }
}

/// The log ends with the exchange of cells 0 and 1.
pub open spec fn ends_at_the_root(log: Seq<Operation>) -> bool {
    &&& log.len() >= 5
    &&& log.last() is Swap
    &&& log[log.len() - 5] == Operation::Read(0)
    &&& log[log.len() - 4] == Operation::Read(1)
}

/// What shell sort appends to `before`, on two values or more: it starts
/// by comparing cell 0 with the cell half the size on, exchanges a cell only
/// with a later cell, at most half the size on, that held less, and ends in
/// the pass over neighbours.
pub open spec fn records_shell(
    values: Seq<u16>,
    before: Seq<Operation>,
    log: Seq<Operation>,
    work: Seq<u16>,
) -> bool {
    work.len() >= 2 ==> {
        &&& mending(values, log, before.len() as int, work.len() as int / 2)
        &&& starts_with(before, log, 0, (work.len() / 2) as usize)
        &&& ends_on_neighbours(log)
    }
}

/// What heap sort appends to `before`, on two values or more: it starts by
/// comparing the last node that has a child with its left child, and ends by
/// exchanging the root with the one cell left of the heap.
pub open spec fn records_heap(
    values: Seq<u16>,
    before: Seq<Operation>,
    log: Seq<Operation>,
    work: Seq<u16>,
) -> bool {
    work.len() >= 2 ==> {
        &&& starts_with(
            before,
            log,
            (2 * (work.len() / 2 - 1) + 1) as usize,
            (work.len() / 2 - 1) as usize,
        )
        &&& ends_at_the_root(log)
    }
}

/// What quicksort appends to `before`, on two values or more: it starts by
/// reading the last cell, the pivot, and then the first, and it compares
/// against the pivot it holds, so that it records no `Compare`.
pub open spec fn records_quick(
    values: Seq<u16>,
    before: Seq<Operation>,
    log: Seq<Operation>,
    work: Seq<u16>,
) -> bool {
    work.len() >= 2 ==> {
        &&& starts_with(before, log, (work.len() - 1) as usize, 0)
        &&& compares_in(log) == compares_in(before)
    }
}

/// What cycle sort appends to `before`, on two values or more: it starts by
/// reading cell 0 and comparing cell 1 with it, and it writes values where
/// they belong, so that it records no `Swap`.
pub open spec fn records_cycle(
    values: Seq<u16>,
    before: Seq<Operation>,
    log: Seq<Operation>,
    work: Seq<u16>,
) -> bool {
    work.len() >= 2 ==> {
        &&& starts_with(before, log, 0, 1)
        &&& swaps_in(log) == swaps_in(before)
    }
}

/// A sorting algorithm, written against the recording primitives of
/// [`Sorting`] alone.
pub trait SortAlgorithm {
    /// Sorts the work buffer of a running recording.
    ///
    /// The buffer ends sorted and holds the values it held before. The log
    /// only grows, by a faithful trace of every access, and it grows at all
    /// exactly when there are two values or more.
    fn sort(s: &mut Sorting)
        requires
            old(s).recording(),
        ensures
            final(s).advances(old(s)),
            is_sorted(final(s).work()),
            final(s).work().to_multiset() == old(s).work().to_multiset(),
            (final(s).log().len() == old(s).log().len()) == (old(s).spec_size() < 2),
    ;
}

impl SortAlgorithm for BubbleSort {
    fn sort(s: &mut Sorting)
        ensures
            records_bubble(old(s).visible().values, old(s).log(), final(s).log(), old(s).work()),
    {
        let size = s.size();
        proof {
            s.lemma_recording_begins();
        }
        if size < 2 {
            return ;
        }
        let ghost limit = weight_limit(size as nat);
        proof {
            reveal(upward);
        }

        loop
            invariant
                size == s.spec_size(),
                size >= 2,
                limit == weight_limit(size as nat),
                s.advances(old(s)),
                s.work().to_multiset() == old(s).work().to_multiset(),
                s.log().len() >= old(s).log().len(),
                mending(s.visible().values, s.log(), old(s).log().len() as int, 1),
                swaps_in(s.log()) + inversions(s.work()) == swaps_in(old(s).log()) + inversions(
                    old(s).work(),
                ),
                s.log().len() > old(s).log().len() ==> starts_with(old(s).log(), s.log(), 0, 1),
                upward(s.log(), old(s).log().len() as int),
            ensures
                is_sorted(s.work()),
                s.log().len() > old(s).log().len(),
                ends_calm(s.log(), size as nat),
            decreases limit - weight(s.work()),
        {
            let mut has_swapped = false;
            let ghost start = s.work();
            let ghost pass = s.log().len() as int;
            proof {
                lemma_nothing_appended(s.visible().values, s.log(), 1);
            }

            for i in 0..size - 1
                invariant
                    size == s.spec_size(),
                    size >= 2,
                    s.advances(old(s)),
                    s.work().to_multiset() == old(s).work().to_multiset(),
                    s.log().len() >= old(s).log().len(),
                    i > 0 ==> s.log().len() > old(s).log().len(),
                    mending(s.visible().values, s.log(), old(s).log().len() as int, 1),
                    swaps_in(s.log()) + inversions(s.work()) == swaps_in(old(s).log())
                        + inversions(old(s).work()),
                    s.log().len() > old(s).log().len() ==> starts_with(
                        old(s).log(),
                        s.log(),
                        0,
                        1,
                    ),
                    upward(s.log(), old(s).log().len() as int),
                    i > 0 ==> ends_on(s.log(), (i - 1) as usize),
                    !has_swapped ==> calm(s.log(), pass) && s.log().len() == pass + 3 * i,
                    !has_swapped ==> s.work() == start && forall|k: int|
                        0 <= k < i ==> s.work()[k] <= #[trigger] s.work()[k + 1],
                    has_swapped ==> weight(s.work()) > weight(start),
            {
                proof {
                    lemma_upward_compare(s.log(), old(s).log().len() as int, i);
                }
                let greater = s.pre_greater(i, i + 1);
                if greater {
                    proof {
                        lemma_exchange_gains(s.work(), i as int, i + 1);
                        lemma_neighbours_mend_one(s.work(), i as int);
                    }
                    proof {
                        lemma_upward_swap(
                            s.log(),
                            old(s).log().len() as int,
                            i,
                            s.peek(i),
                            s.peek((i + 1) as usize),
                        );
                    }
                    s.pre_swap(i, i + 1);
                    has_swapped = true;
                }
            }

            if !has_swapped {
                proof {
                    lemma_adjacent_sorted(s.work());
                }
                break ;
            }
            proof {
                lemma_weight_bound(s.work());
            }
        }
        proof {
            lemma_sorted_has_none(s.work(), s.work().len() as int);
        }
    }
}

impl SortAlgorithm for CocktailSort {
    fn sort(s: &mut Sorting)
        ensures
            records_cocktail(old(s).visible().values, old(s).log(), final(s).log(), old(s).work()),
    {
        let size = s.size();
        proof {
            s.lemma_recording_begins();
        }
        if size < 2 {
            return ;
        }
        let ghost limit = weight_limit(size as nat);
        let ghost rounds: nat = 0;
        let ghost done: int = 0;
        proof {
            assert((2 * 0 + 1) * (size - 1) == size - 1) by (nonlinear_arith);
        }

        loop
            invariant_except_break
                compares_in(s.log()) == compares_in(old(s).log()) + done,
            invariant
                size == s.spec_size(),
                size >= 2,
                limit == weight_limit(size as nat),
                s.advances(old(s)),
                s.work().to_multiset() == old(s).work().to_multiset(),
                s.log().len() >= old(s).log().len(),
                mending(s.visible().values, s.log(), old(s).log().len() as int, 1),
                swaps_in(s.log()) + inversions(s.work()) == swaps_in(old(s).log()) + inversions(
                    old(s).work(),
                ),
                s.log().len() > old(s).log().len() ==> starts_with(old(s).log(), s.log(), 0, 1),
                done + (size - 1) == odd_times(rounds, size - 1),
            ensures
                is_sorted(s.work()),
                s.log().len() > old(s).log().len(),
                ends_calm(s.log(), size as nat),
                compares_in(s.log()) == compares_in(old(s).log()) + odd_times(rounds, size - 1),
            decreases limit - weight(s.work()),
        {
            let mut has_swapped = false;
            let ghost start = s.work();
            let ghost pass = s.log().len() as int;
            proof {
                lemma_nothing_appended(s.visible().values, s.log(), 1);
            }

            for i in 0..size - 1
                invariant
                    size == s.spec_size(),
                    size >= 2,
                    s.advances(old(s)),
                    s.work().to_multiset() == old(s).work().to_multiset(),
                    s.log().len() >= old(s).log().len(),
                    i > 0 ==> s.log().len() > old(s).log().len(),
                    mending(s.visible().values, s.log(), old(s).log().len() as int, 1),
                    swaps_in(s.log()) + inversions(s.work()) == swaps_in(old(s).log())
                        + inversions(old(s).work()),
                    s.log().len() > old(s).log().len() ==> starts_with(
                        old(s).log(),
                        s.log(),
                        0,
                        1,
                    ),
                    compares_in(s.log()) == compares_in(old(s).log()) + done + i,
                    !has_swapped ==> calm(s.log(), pass) && s.log().len() == pass + 3 * i,
                    !has_swapped ==> s.work() == start && forall|k: int|
                        0 <= k < i ==> s.work()[k] <= #[trigger] s.work()[k + 1],
                    has_swapped ==> weight(s.work()) > weight(start),
            {
                if s.pre_greater(i, i + 1) {
                    proof {
                        lemma_exchange_gains(s.work(), i as int, i + 1);
                        lemma_neighbours_mend_one(s.work(), i as int);
                    }
                    s.pre_swap(i, i + 1);
                    has_swapped = true;
                }
            }

            if !has_swapped {
                proof {
                    lemma_adjacent_sorted(s.work());
                }
                break ;
            }
            let mut i: usize = size - 1;
            while i >= 1
                invariant
                    size == s.spec_size(),
                    i < size,
                    has_swapped,
                    s.advances(old(s)),
                    s.work().to_multiset() == old(s).work().to_multiset(),
                    s.log().len() > old(s).log().len(),
                    mending(s.visible().values, s.log(), old(s).log().len() as int, 1),
                    swaps_in(s.log()) + inversions(s.work()) == swaps_in(old(s).log())
                        + inversions(old(s).work()),
                    starts_with(old(s).log(), s.log(), 0, 1),
                    compares_in(s.log()) == compares_in(old(s).log()) + done + (size - 1) + (size
                        - 1 - i),
                    weight(s.work()) > weight(start),
                decreases i,
            {
                if s.pre_greater(i - 1, i) {
                    proof {
                        lemma_exchange_gains(s.work(), i - 1, i as int);
                        lemma_neighbours_mend_one(s.work(), i - 1);
                    }
                    s.pre_swap(i - 1, i);
                    has_swapped = true;
                }
                i -= 1;
            }

            if !has_swapped {
                break ;
            }
            proof {
                lemma_weight_bound(s.work());
                let unit: int = size - 1;
                let r: int = rounds as int;
                assert((2 * (r + 1) + 1) * unit == (2 * r + 1) * unit + 2 * unit) by (nonlinear_arith);
                rounds = rounds + 1;
                done = done + 2 * unit;
            }
        }
        proof {
            lemma_sorted_has_none(s.work(), s.work().len() as int);
        }
    }
}

impl SortAlgorithm for SelectionSort {
    fn sort(s: &mut Sorting)
        ensures
            records_selection(
                old(s).visible().values,
                old(s).log(),
                final(s).log(),
                old(s).work(),
            ),
    {
        let size = s.size();
        proof {
            s.lemma_recording_begins();
        }
        if size < 2 {
            return ;
        }
        for i in 0..size - 1
            invariant
                size == s.spec_size(),
                size >= 2,
                s.advances(old(s)),
                s.work().to_multiset() == old(s).work().to_multiset(),
                s.log().len() >= old(s).log().len(),
                i > 0 ==> s.log().len() > old(s).log().len(),
                i == 0 ==> s.log().len() == old(s).log().len(),
                i > 0 ==> starts_with(old(s).log(), s.log(), 0, 1),
                mending(s.visible().values, s.log(), old(s).log().len() as int, size as int),
                compares_in(s.log()) + pairs((size - i) as nat) == compares_in(old(s).log())
                    + pairs(size as nat),
                swaps_in(s.log()) <= swaps_in(old(s).log()) + i,
                forall|a: int, b: int| 0 <= a < i && a <= b < size ==> s.work()[a] <= s.work()[b],
        {
            let mut min_index: usize = i;
            let ghost start = s.work();
            proof {
                assert(pairs((size - i) as nat) == pairs((size - i - 1) as nat) + (size - i - 1));
            }

            for j in i + 1..size
                invariant
                    size == s.spec_size(),
                    i < size - 1,
                    s.advances(old(s)),
                    s.log().len() >= old(s).log().len(),
                    j > i + 1 ==> s.log().len() > old(s).log().len(),
                    i == 0 && j == 1 ==> s.log().len() == old(s).log().len(),
                    j > i + 1 || i > 0 ==> starts_with(old(s).log(), s.log(), 0, 1),
                    mending(s.visible().values, s.log(), old(s).log().len() as int, size as int),
                    compares_in(s.log()) + pairs((size - i - 1) as nat) + (size - j)
                        == compares_in(old(s).log()) + pairs(size as nat),
                    swaps_in(s.log()) <= swaps_in(old(s).log()) + i,
                    s.work() == start,
                    i <= min_index < j,
                    min_index != i ==> s.work()[min_index as int] < s.work()[i as int],
                    forall|k: int| i <= k < j ==> s.work()[min_index as int] <= s.work()[k],
            {
                if s.pre_greater(min_index, j) {
                    min_index = j;
                }
            }

            if min_index != i {
                s.pre_swap(i, min_index);
            }
        }
        proof {
            assert(pairs(1) == pairs(0) + 0);
        }
    }
}

impl SortAlgorithm for InsertionSort {
    fn sort(s: &mut Sorting)
        ensures
            records_insertion(
                old(s).visible().values,
                old(s).log(),
                final(s).log(),
                old(s).work(),
            ),
    {
        let size = s.size();
        proof {
            s.lemma_recording_begins();
        }
        if size < 2 {
            return ;
        }
        for i in 1..size
            invariant
                size == s.spec_size(),
                s.advances(old(s)),
                s.work().to_multiset() == old(s).work().to_multiset(),
                s.log().len() >= old(s).log().len(),
                i > 1 ==> s.log().len() > old(s).log().len(),
                i == 1 ==> s.log().len() == old(s).log().len(),
                i > 1 ==> starts_with(old(s).log(), s.log(), 0, 1),
                mending(s.visible().values, s.log(), old(s).log().len() as int, 1),
                swaps_in(s.log()) + inversions(s.work()) == swaps_in(old(s).log()) + inversions(
                    old(s).work(),
                ),
                compares_in(s.log()) - compares_in(old(s).log()) >= swaps_in(s.log()) - swaps_in(
                    old(s).log(),
                ),
                compares_in(s.log()) - compares_in(old(s).log()) <= swaps_in(s.log()) - swaps_in(
                    old(s).log(),
                ) + i - 1,
                forall|a: int, b: int| 0 <= a <= b < i ==> s.work()[a] <= s.work()[b],
        {
            let mut j: usize = i;
            while j > 0 && s.pre_greater(j - 1, j)
                invariant_except_break
                    compares_in(s.log()) - compares_in(old(s).log()) <= swaps_in(s.log())
                        - swaps_in(old(s).log()) + i - 1,
                    i == 1 && j == 1 ==> s.log().len() == old(s).log().len(),
                invariant
                    size == s.spec_size(),
                    1 <= i < size,
                    j <= i,
                    s.advances(old(s)),
                    s.work().to_multiset() == old(s).work().to_multiset(),
                    s.log().len() >= old(s).log().len(),
                    j < i ==> s.log().len() > old(s).log().len(),
                    j < i || i > 1 ==> starts_with(old(s).log(), s.log(), 0, 1),
                    mending(s.visible().values, s.log(), old(s).log().len() as int, 1),
                    swaps_in(s.log()) + inversions(s.work()) == swaps_in(old(s).log())
                        + inversions(old(s).work()),
                    compares_in(s.log()) - compares_in(old(s).log()) >= swaps_in(s.log())
                        - swaps_in(old(s).log()),
                    compares_in(s.log()) - compares_in(old(s).log()) <= swaps_in(s.log())
                        - swaps_in(old(s).log()) + i,
                    forall|a: int, b: int|
                        0 <= a <= b <= i && a != j && b != j ==> s.work()[a] <= s.work()[b],
                    forall|b: int| j < b <= i ==> s.work()[j as int] <= s.work()[b],
                ensures
                    s.log().len() > old(s).log().len(),
                    starts_with(old(s).log(), s.log(), 0, 1),
                    forall|a: int, b: int| 0 <= a <= b <= i ==> s.work()[a] <= s.work()[b],
                decreases j,
            {
                proof {
                    lemma_neighbours_mend_one(s.work(), j - 1);
                }
                s.pre_swap(j - 1, j);
                j -= 1;
            }
        }
        proof {
            lemma_sorted_has_none(s.work(), s.work().len() as int);
        }
    }
}

impl SortAlgorithm for GnomeSort {
    fn sort(s: &mut Sorting)
        ensures
            records_gnome(old(s).visible().values, old(s).log(), final(s).log(), old(s).work()),
    {
        let size = s.size();
        let mut index: usize = 0;
        proof {
            s.lemma_recording_begins();
            lemma_weight_bound(s.work());
        }
        let ghost limit = weight_limit(size as nat);
        let ghost restarts: int = 0;

        while index < size
            invariant
                size == s.spec_size(),
                index <= size,
                limit == weight_limit(size as nat),
                weight(s.work()) <= limit,
                s.advances(old(s)),
                s.work().to_multiset() == old(s).work().to_multiset(),
                s.log().len() >= old(s).log().len(),
                index >= 2 ==> s.log().len() > old(s).log().len(),
                size < 2 ==> s.log().len() == old(s).log().len(),
                s.log().len() > old(s).log().len() ==> starts_with(old(s).log(), s.log(), 0, 1),
                mending(s.visible().values, s.log(), old(s).log().len() as int, 1),
                swaps_in(s.log()) + inversions(s.work()) == swaps_in(old(s).log()) + inversions(
                    old(s).work(),
                ),
                compares_in(s.log()) - compares_in(old(s).log()) + restarts == 2 * (swaps_in(
                    s.log(),
                ) - swaps_in(old(s).log())) + index,
                restarts + (if index == 0 { 1int } else { 0int }) <= swaps_in(s.log()) - swaps_in(
                    old(s).log(),
                ) + 1,
                restarts >= 0,
                index >= 1 ==> restarts >= 1,
                forall|a: int, b: int| 0 <= a <= b < index ==> s.work()[a] <= s.work()[b],
            decreases limit - weight(s.work()), size - index,
        {
            if index == 0 || !s.pre_greater(index - 1, index) {
                proof {
                    if index == 0 {
                        restarts = restarts + 1;
                    }
                }
                index += 1;
            } else {
                proof {
                    lemma_exchange_gains(s.work(), index - 1, index as int);
                    lemma_neighbours_mend_one(s.work(), index - 1);
                }
                s.pre_swap(index - 1, index);
                index -= 1;
                proof {
                    lemma_weight_bound(s.work());
                }
            }
        }
        proof {
            lemma_sorted_has_none(s.work(), s.work().len() as int);
        }
    }
}

impl SortAlgorithm for CycleSort {
    fn sort(s: &mut Sorting)
        ensures
            records_cycle(old(s).visible().values, old(s).log(), final(s).log(), old(s).work()),
    {
        let size = s.size();
        proof {
            s.lemma_recording_begins();
        }
        if size < 2 {
            return ;
        }
        for cycle_start in 0..size - 1
            invariant
                size == s.spec_size(),
                size >= 2,
                s.advances(old(s)),
                s.work().to_multiset() == old(s).work().to_multiset(),
                s.log().len() >= old(s).log().len(),
                cycle_start > 0 ==> s.log().len() > old(s).log().len(),
                cycle_start == 0 ==> s.log().len() == old(s).log().len(),
                cycle_start > 0 ==> starts_with(old(s).log(), s.log(), 0, 1),
                swaps_in(s.log()) == swaps_in(old(s).log()),
                forall|a: int, b: int|
                    0 <= a < cycle_start && a <= b < size ==> s.work()[a] <= s.work()[b],
        {
            let mut item = s.pre_read(cycle_start);
            let mut pos: usize = cycle_start;
            let ghost first = s.work();

            for i in cycle_start + 1..size
                invariant
                    size == s.spec_size(),
                    cycle_start < size - 1,
                    s.advances(old(s)),
                    s.log().len() > old(s).log().len(),
                    cycle_start == 0 && i == 1 ==> s.log().len() == old(s).log().len() + 1 && s.log()[old(
                        s,
                    ).log().len() as int] == Operation::Read(0),
                    cycle_start > 0 || i > 1 ==> starts_with(old(s).log(), s.log(), 0, 1),
                    swaps_in(s.log()) == swaps_in(old(s).log()),
                    s.work() == first,
                    item == first[cycle_start as int],
                    pos - cycle_start == below(first, cycle_start + 1, i as int, item),
                    cycle_start <= pos < i,
            {
                if s.pre_less(i, cycle_start) {
                    pos += 1;
                }
            }

            if pos != cycle_start {
                while s.pre_equal(pos, cycle_start)
                    invariant
                        size == s.spec_size(),
                        cycle_start < size - 1,
                        s.advances(old(s)),
                        s.log().len() > old(s).log().len(),
                        starts_with(old(s).log(), s.log(), 0, 1),
                        swaps_in(s.log()) == swaps_in(old(s).log()),
                        s.work() == first,
                        item == first[cycle_start as int],
                        below(first, cycle_start + 1, size as int, item) >= 1,
                        cycle_start + below(first, cycle_start + 1, size as int, item) <= pos
                            < size,
                        forall|k: int|
                            cycle_start + below(first, cycle_start + 1, size as int, item) <= k
                                < pos ==> first[k] == item,
                    decreases size - pos,
                {
                    proof {
                        lemma_run_fits(first, cycle_start as int, size as int, pos as int);
                    }
                    pos += 1;
                }

                if pos != cycle_start {
                    let temp = s.pre_read(pos);
                    s.pre_write(pos, item);
                    item = temp;
                }
                proof {
                    let held = s.work().update(cycle_start as int, item);
                    assert(held =~= exchanged(first, cycle_start as int, pos as int));
                    lemma_exchange_keeps_values(first, cycle_start as int, pos as int);
                    lemma_counts_front(first, cycle_start as int, size as int, first[cycle_start as int]);
                    lemma_counts_exchange(
                        first,
                        cycle_start as int,
                        size as int,
                        cycle_start as int,
                        pos as int,
                        first[cycle_start as int],
                    );
                }

                while pos != cycle_start
                    invariant
                        size == s.spec_size(),
                        cycle_start < size - 1,
                        cycle_start <= pos < size,
                        s.advances(old(s)),
                        s.log().len() > old(s).log().len(),
                        starts_with(old(s).log(), s.log(), 0, 1),
                        swaps_in(s.log()) == swaps_in(old(s).log()),
                        pos != cycle_start ==> {
                            let held = s.work().update(cycle_start as int, item);
                            &&& held.to_multiset() == old(s).work().to_multiset()
                            &&& forall|a: int, b: int|
                                0 <= a < cycle_start && a <= b < size ==> held[a] <= held[b]
                            &&& below(
                                held,
                                cycle_start as int,
                                size as int,
                                s.work()[cycle_start as int],
                            ) >= 1
                        },
                        pos == cycle_start ==> {
                            &&& s.work().to_multiset() == old(s).work().to_multiset()
                            &&& forall|a: int, b: int|
                                0 <= a < cycle_start + 1 && a <= b < size ==> s.work()[a]
                                    <= s.work()[b]
                        },
                    decreases
                            (if pos == cycle_start {
                                0nat
                            } else {
                                1 + astray(
                                    s.work().update(cycle_start as int, item),
                                    cycle_start as int,
                                    size as int,
                                    size as int,
                                )
                            }),
                {
                    let ghost buffer = s.work();
                    let ghost held = buffer.update(cycle_start as int, item);
                    pos = cycle_start;

                    for i in cycle_start + 1..size
                        invariant
                            size == s.spec_size(),
                            cycle_start < size - 1,
                            s.advances(old(s)),
                            s.log().len() > old(s).log().len(),
                            starts_with(old(s).log(), s.log(), 0, 1),
                            swaps_in(s.log()) == swaps_in(old(s).log()),
                            s.work() == buffer,
                            held == buffer.update(cycle_start as int, item),
                            pos - cycle_start == below(held, cycle_start + 1, i as int, item),
                            cycle_start <= pos < i,
                    {
                        if s.pre_read(i) < item {
                            pos += 1;
                        }
                    }

                    proof {
                        lemma_counts_front(held, cycle_start as int, size as int, item);
                    }
                    while item == s.pre_read(pos)
                        invariant
                            size == s.spec_size(),
                            cycle_start < size - 1,
                            s.advances(old(s)),
                            s.log().len() > old(s).log().len(),
                            starts_with(old(s).log(), s.log(), 0, 1),
                            swaps_in(s.log()) == swaps_in(old(s).log()),
                            s.work() == buffer,
                            held == buffer.update(cycle_start as int, item),
                            cycle_start + below(held, cycle_start + 1, size as int, item) <= pos
                                < size,
                            below(held, cycle_start + 1, size as int, item) == 0 ==> pos
                                == cycle_start && buffer[cycle_start as int] != item,
                            forall|k: int|
                                cycle_start + below(held, cycle_start + 1, size as int, item) <= k
                                    < pos ==> held[k] == item,
                        decreases size - pos,
                    {
                        proof {
                            lemma_run_fits(held, cycle_start as int, size as int, pos as int);
                        }
                        pos += 1;
                    }

                    if item != s.pre_read(pos) {
                        let temp = s.pre_read(pos);
                        s.pre_write(pos, item);
                        item = temp;
                    }
                    proof {
                        if pos == cycle_start {
                            assert(s.work() =~= held);
                            lemma_none_below(held, cycle_start + 1, size as int, held[cycle_start as int]);
                        } else {
                            let next = s.work().update(cycle_start as int, item);
                            assert(next =~= exchanged(held, cycle_start as int, pos as int));
                            lemma_exchange_keeps_values(held, cycle_start as int, pos as int);
                            lemma_place(held, cycle_start as int, size as int, pos as int);
                            lemma_counts_exchange(
                                held,
                                cycle_start as int,
                                size as int,
                                cycle_start as int,
                                pos as int,
                                buffer[cycle_start as int],
                            );
                        }
                    }
                }
            } else {
                proof {
                    lemma_none_below(first, cycle_start + 1, size as int, item);
                }
            }
        }
    }
}

/// Lets the value of node `i` sink until it dominates its children, in the
/// heap laid out in the first `n` cells.
///
/// Node `i` is the one node from `lo` on that may not dominate before. Every
/// node from `lo` on dominates after. Cells from `n` on are not touched, and
/// no bound that held of the first `n` cells is broken.
fn heapify(s: &mut Sorting, n: usize, i: usize, Ghost(lo): Ghost<int>)
    requires
        old(s).recording(),
        i < n <= old(s).spec_size(),
        0 <= lo <= i,
        heap_but(old(s).work(), n as int, lo, i as int),
    ensures
        final(s).recording(),
        forall|origin: Sorting| #[trigger]
            old(s).advances(&origin) ==> final(s).advances(&origin),
        final(s).log().len() >= old(s).log().len(),
        forall|k: int| 0 <= k < old(s).log().len() ==> #[trigger] final(s).log()[k] == old(s).log()[k],
        2 * i + 1 < n ==> starts_with(old(s).log(), final(s).log(), (2 * i + 1) as usize, i),
        2 * i + 1 >= n ==> final(s).log().len() == old(s).log().len(),
        final(s).work().to_multiset() == old(s).work().to_multiset(),
        heap_from(final(s).work(), n as int, lo),
        forall|k: int| n <= k < final(s).work().len() ==> final(s).work()[k] == old(s).work()[k],
        forall|bound: u16| #[trigger]
            capped(old(s).work(), 0, n as int, bound) ==> capped(
                final(s).work(),
                0,
                n as int,
                bound,
            ),
    decreases n - i,
{
    proof {
        s.lemma_recording_begins();
    }
    let mut largest: usize = i;
    let left: usize = 2 * i + 1;
    let right: usize = 2 * i + 2;

    if left < n && s.pre_greater(left, largest) {
        largest = left;
    }
    if right < n && s.pre_greater(right, largest) {
        largest = right;
    }
    if largest != i {
        proof {
            lemma_sink(s.work(), n as int, lo, i as int, largest as int);
        }
        s.pre_swap(i, largest);
        heapify(s, n, largest, Ghost(lo));
    } else {
        proof {
            lemma_sunk(s.work(), n as int, lo, i as int);
        }
    }
}

impl SortAlgorithm for HeapSort {
    fn sort(s: &mut Sorting)
        ensures
            records_heap(old(s).visible().values, old(s).log(), final(s).log(), old(s).work()),
    {
        let size = s.size();
        proof {
            s.lemma_recording_begins();
        }
        if size < 2 {
            return ;
        }
        let mut i: usize = size / 2;
        while i > 0
            invariant
                size == s.spec_size(),
                i <= size / 2,
                size >= 2,
                s.advances(old(s)),
                s.work().to_multiset() == old(s).work().to_multiset(),
                s.log().len() >= old(s).log().len(),
                i == size / 2 ==> s.log().len() == old(s).log().len(),
                i < size / 2 ==> starts_with(
                    old(s).log(),
                    s.log(),
                    (2 * (size / 2 - 1) + 1) as usize,
                    (size / 2 - 1) as usize,
                ),
                heap_from(s.work(), size as int, i as int),
            decreases i,
        {
            i -= 1;
            proof {
                assert(heap_but(s.work(), size as int, i as int, i as int));
            }
            heapify(s, size, i, Ghost(i as int));
        }

        let mut i: usize = size - 1;
        while i >= 1
            invariant
                size == s.spec_size(),
                size >= 2,
                i < size,
                s.advances(old(s)),
                s.work().to_multiset() == old(s).work().to_multiset(),
                s.log().len() >= old(s).log().len(),
                i < size - 1 ==> s.log().len() > old(s).log().len(),
                starts_with(
                    old(s).log(),
                    s.log(),
                    (2 * (size / 2 - 1) + 1) as usize,
                    (size / 2 - 1) as usize,
                ),
                i == 0 ==> ends_at_the_root(s.log()),
                heap_from(s.work(), i + 1, 0),
                forall|a: int, b: int| i < a <= b < size ==> s.work()[a] <= s.work()[b],
                forall|a: int, b: int| 0 <= a <= i && i < b < size ==> s.work()[a] <= s.work()[b],
            decreases i,
        {
            let ghost before = s.work();
            proof {
                assert forall|k: int| 0 <= k <= i implies before[0] >= #[trigger] before[k] by {
                    lemma_root_is_largest(before, i + 1, k);
                }
            }
            s.pre_swap(0, i);
            let ghost swapped = s.work();
            proof {
                assert forall|p: int| 0 <= p < i && p != 0 implies #[trigger] dominates(
                    swapped,
                    i as int,
                    p,
                ) by {
                    assert(dominates(before, i + 1, p));
                }
                assert(heap_but(swapped, i as int, 0, 0));
                assert forall|b: int| i <= b < size implies capped(swapped, 0, i as int, swapped[b]) by {
                }
            }
            heapify(s, i, 0, Ghost(0));
            proof {
                assert forall|a: int, b: int| 0 <= a < i && i <= b < size implies s.work()[a]
                    <= s.work()[b] by {
                    assert(capped(swapped, 0, i as int, swapped[b]));
                    assert(capped(s.work(), 0, i as int, swapped[b]));
                }
            }
            i -= 1;
        }
    }
}

impl SortAlgorithm for ShellSort {
    fn sort(s: &mut Sorting)
        ensures
            records_shell(old(s).visible().values, old(s).log(), final(s).log(), old(s).work()),
    {
        let size = s.size();
        let mut gap: usize = size / 2;
        proof {
            s.lemma_recording_begins();
        }

        while gap > 0
            invariant
                size == s.spec_size(),
                gap <= size / 2,
                s.advances(old(s)),
                s.work().to_multiset() == old(s).work().to_multiset(),
                s.log().len() >= old(s).log().len(),
                size < 2 ==> s.log().len() == old(s).log().len(),
                gap == size / 2 ==> s.log().len() == old(s).log().len(),
                gap < size / 2 ==> s.log().len() > old(s).log().len(),
                gap < size / 2 ==> starts_with(old(s).log(), s.log(), 0, (size / 2) as usize),
                mending(s.visible().values, s.log(), old(s).log().len() as int, size as int / 2),
                gap == 0 && size >= 2 ==> is_sorted(s.work()) && ends_on_neighbours(s.log()),
            decreases gap,
        {
            for i in gap..size
                invariant
                    size == s.spec_size(),
                    1 <= gap <= size / 2,
                    s.advances(old(s)),
                    s.work().to_multiset() == old(s).work().to_multiset(),
                    s.log().len() >= old(s).log().len(),
                    i > gap ==> s.log().len() > old(s).log().len(),
                    gap == size / 2 && i == gap ==> s.log().len() == old(s).log().len(),
                    gap < size / 2 || i > gap ==> starts_with(
                        old(s).log(),
                        s.log(),
                        0,
                        (size / 2) as usize,
                    ),
                    mending(
                        s.visible().values,
                        s.log(),
                        old(s).log().len() as int,
                        size as int / 2,
                    ),
                    gap == 1 && i > gap ==> ends_on_neighbours(s.log()),
                    gap == 1 ==> forall|a: int, b: int|
                        0 <= a <= b < i ==> s.work()[a] <= s.work()[b],
            {
                let mut j: usize = i;
                while j >= gap && s.pre_greater(j - gap, j)
                    invariant_except_break
                        gap == size / 2 && i == gap && j == i ==> s.log().len() == old(
                            s,
                        ).log().len(),
                    invariant
                        size == s.spec_size(),
                        1 <= gap <= i < size,
                        gap <= size / 2,
                        j <= i,
                        s.advances(old(s)),
                        s.work().to_multiset() == old(s).work().to_multiset(),
                        s.log().len() >= old(s).log().len(),
                        j < i ==> s.log().len() > old(s).log().len(),
                        gap < size / 2 || i > gap || j < i ==> starts_with(
                            old(s).log(),
                            s.log(),
                            0,
                            (size / 2) as usize,
                        ),
                        mending(
                            s.visible().values,
                            s.log(),
                            old(s).log().len() as int,
                            size as int / 2,
                        ),
                        gap == 1 && j < i ==> ends_on_neighbours(s.log()),
                        gap == 1 ==> forall|a: int, b: int|
                            0 <= a <= b <= i && a != j && b != j ==> s.work()[a] <= s.work()[b],
                        gap == 1 ==> forall|b: int| j < b <= i ==> s.work()[j as int] <= s.work()[b],
                    ensures
                        s.log().len() > old(s).log().len(),
                        starts_with(old(s).log(), s.log(), 0, (size / 2) as usize),
                        gap == 1 ==> ends_on_neighbours(s.log()),
                        gap == 1 ==> forall|a: int, b: int|
                            0 <= a <= b <= i ==> s.work()[a] <= s.work()[b],
                    decreases j,
                {
                    s.pre_swap(j - gap, j);
                    j -= gap;
                }
            }
            gap /= 2;
        }
    }
}

impl SortAlgorithm for OddEvenSort {
    fn sort(s: &mut Sorting)
        ensures
            records_odd_even(old(s).visible().values, old(s).log(), final(s).log(), old(s).work()),
    {
        let size = s.size();
        let mut sorted = false;
        proof {
            s.lemma_recording_begins();
            lemma_weight_bound(s.work());
        }
        if size < 2 {
            return ;
        }
        let ghost limit = weight_limit(size as nat);

        while !sorted
            invariant
                size == s.spec_size(),
                size >= 2,
                limit == weight_limit(size as nat),
                weight(s.work()) <= limit,
                s.advances(old(s)),
                s.work().to_multiset() == old(s).work().to_multiset(),
                s.log().len() >= old(s).log().len(),
                mending(s.visible().values, s.log(), old(s).log().len() as int, 1),
                swaps_in(s.log()) + inversions(s.work()) == swaps_in(old(s).log()) + inversions(
                    old(s).work(),
                ),
                s.log().len() > old(s).log().len() ==> starts_with(
                    old(s).log(),
                    s.log(),
                    if size >= 3 { 1usize } else { 0usize },
                    if size >= 3 { 2usize } else { 1usize },
                ),
                sorted ==> is_sorted(s.work()) && s.log().len() > old(s).log().len() && ends_calm(
                    s.log(),
                    size as nat,
                ),
            decreases (if sorted { 0int } else { 1 + limit - weight(s.work()) }),
        {
            sorted = true;
            let ghost start = s.work();
            let ghost round = s.log().len() as int;
            proof {
                lemma_nothing_appended(s.visible().values, s.log(), 1);
            }

            let mut i: usize = 1;
            while i < size - 1
                invariant
                    size == s.spec_size(),
                    size >= 2,
                    i % 2 == 1,
                    i <= size,
                    s.advances(old(s)),
                    s.work().to_multiset() == old(s).work().to_multiset(),
                    s.log().len() >= old(s).log().len(),
                    round >= old(s).log().len(),
                    mending(s.visible().values, s.log(), old(s).log().len() as int, 1),
                    swaps_in(s.log()) + inversions(s.work()) == swaps_in(old(s).log())
                        + inversions(old(s).work()),
                    s.log().len() > old(s).log().len() ==> starts_with(
                        old(s).log(),
                        s.log(),
                        if size >= 3 { 1usize } else { 0usize },
                        if size >= 3 { 2usize } else { 1usize },
                    ),
                    i > 1 ==> s.log().len() > old(s).log().len(),
                    sorted ==> calm(s.log(), round) && 2 * (s.log().len() - round) == 3 * (i - 1),
                    sorted ==> s.work() == start && forall|k: int|
                        1 <= k < i && k % 2 == 1 ==> s.work()[k] <= #[trigger] s.work()[k + 1],
                    !sorted ==> weight(s.work()) > weight(start),
                decreases size - i,
            {
                if s.pre_greater(i, i + 1) {
                    proof {
                        lemma_exchange_gains(s.work(), i as int, i + 1);
                        lemma_neighbours_mend_one(s.work(), i as int);
                    }
                    s.pre_swap(i, i + 1);
                    sorted = false;
                }
                i += 2;
            }
            let ghost odd_end = i as int;

            let mut i: usize = 0;
            while i < size - 1
                invariant
                    size == s.spec_size(),
                    size >= 2,
                    i % 2 == 0,
                    i <= size,
                    odd_end % 2 == 1,
                    size - 1 <= odd_end <= size,
                    s.advances(old(s)),
                    s.work().to_multiset() == old(s).work().to_multiset(),
                    s.log().len() >= old(s).log().len(),
                    round >= old(s).log().len(),
                    i > 0 ==> s.log().len() > old(s).log().len(),
                    size >= 3 ==> s.log().len() > old(s).log().len(),
                    mending(s.visible().values, s.log(), old(s).log().len() as int, 1),
                    swaps_in(s.log()) + inversions(s.work()) == swaps_in(old(s).log())
                        + inversions(old(s).work()),
                    s.log().len() > old(s).log().len() ==> starts_with(
                        old(s).log(),
                        s.log(),
                        if size >= 3 { 1usize } else { 0usize },
                        if size >= 3 { 2usize } else { 1usize },
                    ),
                    sorted ==> calm(s.log(), round) && 2 * (s.log().len() - round) == 3 * (odd_end
                        - 1 + i),
                    sorted ==> s.work() == start && forall|k: int|
                        0 <= k < size - 1 && k % 2 == 1 ==> s.work()[k] <= #[trigger] s.work()[k
                            + 1],
                    sorted ==> forall|k: int|
                        0 <= k < i && k % 2 == 0 ==> s.work()[k] <= #[trigger] s.work()[k + 1],
                    !sorted ==> weight(s.work()) > weight(start),
                decreases size - i,
            {
                if s.pre_greater(i, i + 1) {
                    proof {
                        lemma_exchange_gains(s.work(), i as int, i + 1);
                        lemma_neighbours_mend_one(s.work(), i as int);
                    }
                    s.pre_swap(i, i + 1);
                    sorted = false;
                }
                i += 2;
            }
            proof {
                lemma_weight_bound(s.work());
                if sorted {
                    lemma_adjacent_sorted(s.work());
                    assert(s.log().len() - round == 3 * (size - 1));
                }
            }
        }
        proof {
            lemma_sorted_has_none(s.work(), s.work().len() as int);
        }
    }
}

/// Lomuto's partition of the cells `low..=high` around the value of cell
/// `high`: the pivot ends in the cell whose index is returned, with nothing
/// larger before it in the range and nothing smaller after it. Cells outside
/// the range are not touched, and no bound that held of the range is broken.
fn partition(s: &mut Sorting, low: usize, high: usize) -> (pivot_index: usize)
    requires
        old(s).recording(),
        low < high < old(s).spec_size(),
    ensures
        final(s).recording(),
        forall|origin: Sorting| #[trigger]
            old(s).advances(&origin) ==> final(s).advances(&origin),
        final(s).log().len() > old(s).log().len(),
        forall|k: int| 0 <= k < old(s).log().len() ==> #[trigger] final(s).log()[k] == old(s).log()[k],
        starts_with(old(s).log(), final(s).log(), high, low),
        compares_in(final(s).log()) == compares_in(old(s).log()),
        final(s).work().to_multiset() == old(s).work().to_multiset(),
        low <= pivot_index <= high,
        capped(final(s).work(), low as int, pivot_index as int, final(s).peek(pivot_index)),
        floored(final(s).work(), pivot_index + 1, high + 1, final(s).peek(pivot_index)),
        forall|k: int|
            0 <= k < final(s).work().len() && !(low <= k <= high) ==> final(s).work()[k] == old(
                s,
            ).work()[k],
        forall|bound: u16| #[trigger]
            capped(old(s).work(), low as int, high + 1, bound) ==> capped(
                final(s).work(),
                low as int,
                high + 1,
                bound,
            ),
        forall|bound: u16| #[trigger]
            floored(old(s).work(), low as int, high + 1, bound) ==> floored(
                final(s).work(),
                low as int,
                high + 1,
                bound,
            ),
{
    proof {
        s.lemma_recording_begins();
    }
    let pivot = s.pre_read(high);
    let mut i: usize = low;

    for j in low..high
        invariant
            low < high < s.spec_size(),
            s.advances(old(s)),
            forall|origin: Sorting| #[trigger]
                old(s).advances(&origin) ==> s.advances(&origin),
            s.log().len() > old(s).log().len(),
            forall|k: int| 0 <= k < old(s).log().len() ==> #[trigger] s.log()[k] == old(s).log()[k],
            s.log()[old(s).log().len() as int] == Operation::Read(high),
            j == low ==> s.log().len() == old(s).log().len() + 1,
            j > low ==> starts_with(old(s).log(), s.log(), high, low),
            compares_in(s.log()) == compares_in(old(s).log()),
            s.work().to_multiset() == old(s).work().to_multiset(),
            low <= i <= j,
            s.work()[high as int] == pivot,
            forall|k: int| low <= k < i ==> s.work()[k] < pivot,
            forall|k: int| i <= k < j ==> s.work()[k] >= pivot,
            forall|k: int|
                0 <= k < s.work().len() && !(low <= k <= high) ==> s.work()[k] == old(s).work()[k],
            forall|bound: u16| #[trigger]
                capped(old(s).work(), low as int, high + 1, bound) ==> capped(
                    s.work(),
                    low as int,
                    high + 1,
                    bound,
                ),
            forall|bound: u16| #[trigger]
                floored(old(s).work(), low as int, high + 1, bound) ==> floored(
                    s.work(),
                    low as int,
                    high + 1,
                    bound,
                ),
    {
        if s.pre_read(j) < pivot {
            let ghost before = s.work();
            s.pre_swap(i, j);
            proof {
                assert forall|bound: u16| #[trigger]
                    capped(old(s).work(), low as int, high + 1, bound) implies capped(
                    s.work(),
                    low as int,
                    high + 1,
                    bound,
                ) by {
                    assert(capped(before, low as int, high + 1, bound));
                }
                assert forall|bound: u16| #[trigger]
                    floored(old(s).work(), low as int, high + 1, bound) implies floored(
                    s.work(),
                    low as int,
                    high + 1,
                    bound,
                ) by {
                    assert(floored(before, low as int, high + 1, bound));
                }
            }
            i += 1;
        }
    }

    let ghost before = s.work();
    s.pre_swap(i, high);
    proof {
        assert forall|bound: u16| #[trigger]
            capped(old(s).work(), low as int, high + 1, bound) implies capped(
            s.work(),
            low as int,
            high + 1,
            bound,
        ) by {
            assert(capped(before, low as int, high + 1, bound));
        }
        assert forall|bound: u16| #[trigger]
            floored(old(s).work(), low as int, high + 1, bound) implies floored(
            s.work(),
            low as int,
            high + 1,
            bound,
        ) by {
            assert(floored(before, low as int, high + 1, bound));
        }
    }
    i
}

/// Sorts the cells `low..=high`; a range of fewer than two cells is left
/// alone. Cells outside the range are not touched, and no bound that held of
/// the range is broken.
fn quick_sort_recursive(s: &mut Sorting, low: usize, high: usize)
    requires
        old(s).recording(),
        low < high ==> high < old(s).spec_size(),
    ensures
        final(s).recording(),
        forall|origin: Sorting| #[trigger]
            old(s).advances(&origin) ==> final(s).advances(&origin),
        final(s).log().len() >= old(s).log().len(),
        (low < high) == (final(s).log().len() > old(s).log().len()),
        forall|k: int| 0 <= k < old(s).log().len() ==> #[trigger] final(s).log()[k] == old(s).log()[k],
        low < high ==> starts_with(old(s).log(), final(s).log(), high, low),
        compares_in(final(s).log()) == compares_in(old(s).log()),
        final(s).work().to_multiset() == old(s).work().to_multiset(),
        forall|a: int, b: int| low <= a <= b <= high ==> final(s).work()[a] <= final(s).work()[b],
        forall|k: int|
            0 <= k < final(s).work().len() && !(low <= k <= high) ==> final(s).work()[k] == old(
                s,
            ).work()[k],
        forall|bound: u16| #[trigger]
            capped(old(s).work(), low as int, high + 1, bound) ==> capped(
                final(s).work(),
                low as int,
                high + 1,
                bound,
            ),
        forall|bound: u16| #[trigger]
            floored(old(s).work(), low as int, high + 1, bound) ==> floored(
                final(s).work(),
                low as int,
                high + 1,
                bound,
            ),
    decreases (if low < high { high - low } else { 0 }),
{
    proof {
        s.lemma_recording_begins();
    }
    if low < high {
        let pivot_index = partition(s, low, high);
        let ghost parted = s.work();
        let ghost pivot = parted[pivot_index as int];
        if pivot_index > 0 {
            quick_sort_recursive(s, low, pivot_index - 1);
        }
        let ghost left_done = s.work();
        proof {
            assert(capped(parted, low as int, pivot_index - 1 + 1, pivot));
            assert(capped(left_done, low as int, pivot_index as int, pivot));
            assert forall|bound: u16| #[trigger]
                capped(parted, low as int, high + 1, bound) implies capped(
                left_done,
                low as int,
                high + 1,
                bound,
            ) by {
                assert(capped(parted, low as int, pivot_index - 1 + 1, bound));
            }
            assert forall|bound: u16| #[trigger]
                floored(parted, low as int, high + 1, bound) implies floored(
                left_done,
                low as int,
                high + 1,
                bound,
            ) by {
                assert(floored(parted, low as int, pivot_index - 1 + 1, bound));
            }
        }
        quick_sort_recursive(s, pivot_index + 1, high);
        proof {
            assert(floored(left_done, pivot_index + 1, high + 1, pivot));
            assert(floored(s.work(), pivot_index + 1, high + 1, pivot));
            assert forall|bound: u16| #[trigger]
                capped(old(s).work(), low as int, high + 1, bound) implies capped(
                s.work(),
                low as int,
                high + 1,
                bound,
            ) by {
                assert(capped(parted, low as int, high + 1, bound));
                assert(capped(left_done, low as int, high + 1, bound));
                assert(capped(left_done, pivot_index + 1, high + 1, bound));
            }
            assert forall|bound: u16| #[trigger]
                floored(old(s).work(), low as int, high + 1, bound) implies floored(
                s.work(),
                low as int,
                high + 1,
                bound,
            ) by {
                assert(floored(parted, low as int, high + 1, bound));
                assert(floored(left_done, low as int, high + 1, bound));
                assert(floored(left_done, pivot_index + 1, high + 1, bound));
            }
        }
    }
}

impl SortAlgorithm for QuickSort {
    fn sort(s: &mut Sorting)
        ensures
            records_quick(old(s).visible().values, old(s).log(), final(s).log(), old(s).work()),
    {
        let size = s.size();
        proof {
            s.lemma_recording_begins();
        }
        if size > 0 {
            quick_sort_recursive(s, 0, size - 1);
        }
    }
}

} // verus!
