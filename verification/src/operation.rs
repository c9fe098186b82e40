use vstd::prelude::*;

verus! {

/// One recorded access: the unit of replay.
///
/// `Read` and `Write` carry the index they touch, `Write` also the value it
/// stores. `Compare` and `Swap` are markers that close a group of reads and
/// writes recorded just before them.
#[derive(Clone, Copy, Debug, PartialEq, Eq, Structural)]
pub enum Operation {
    Read(usize),
    Write(usize, u16),
    Compare,
    Swap,
}

/// The values after one operation: a `Write` inside the sequence stores its
/// value, every other operation leaves the values alone.
pub open spec fn apply_to(values: Seq<u16>, op: Operation) -> Seq<u16> {
    match op {
        Operation::Write(index, value) => if index < values.len() {
            values.update(index as int, value)
        } else {
            values
        },
        _ => values,
    }
}

/// The values after a whole log has been applied, first operation first.
pub open spec fn replay(values: Seq<u16>, log: Seq<Operation>) -> Seq<u16>
    decreases log.len(),
{
    if log.len() == 0 {
        values
    } else {
        apply_to(replay(values, log.drop_last()), log.last())
    }
}

/// Every index that the log reads or writes lies below `size`.
pub open spec fn in_range(log: Seq<Operation>, size: nat) -> bool {
    forall|k: int|
        0 <= k < log.len() ==> match #[trigger] log[k] {
            Operation::Read(index) => index < size,
            Operation::Write(index, _) => index < size,
            _ => true,
        }
}

/// The group that must stand right before position `k` of the log.
///
/// A `Compare` closes two reads. A `Swap` closes two reads followed by two
/// writes, the first write to the cell read first and the second write to
/// the cell read second.
pub open spec fn paired_at(log: Seq<Operation>, k: int) -> bool {
    match log[k] {
        Operation::Compare => k >= 2 && log[k - 2] is Read && log[k - 1] is Read,
        Operation::Swap => k >= 4 && match (log[k - 4], log[k - 3], log[k - 2], log[k - 1]) {
            (
                Operation::Read(first),
                Operation::Read(second),
                Operation::Write(to_first, _),
                Operation::Write(to_second, _),
            ) => first == to_first && second == to_second,
            _ => false,
        },
        _ => true,
    }
}

/// What one comparison of two cells records: both reads, then the marker.
pub open spec fn compare_group(left: usize, right: usize) -> Seq<Operation> {
    seq![Operation::Read(left), Operation::Read(right), Operation::Compare]
}

/// What one exchange of two cells records: both reads, the write of the
/// right cell's value to the left cell, the write of the left cell's value to
/// the right cell, then the marker.
pub open spec fn swap_group(left: usize, right: usize, left_value: u16, right_value: u16) -> Seq<
    Operation,
> {
    seq![
        Operation::Read(left),
        Operation::Read(right),
        Operation::Write(left, right_value),
        Operation::Write(right, left_value),
        Operation::Swap,
    ]
}

/// Every marker of the log closes the group it stands for.
pub open spec fn paired(log: Seq<Operation>) -> bool {
    forall|k: int| 0 <= k < log.len() ==> #[trigger] paired_at(log, k)
}

/// Where position `k` of the log is a `Swap`, the group before it is an
/// exchange: of the values that the log up to the group leaves, when replayed
/// on `values`, the first write stores the second cell's value in the first
/// cell, and the second write the first cell's value in the second cell.
pub open spec fn exchanges_at(values: Seq<u16>, log: Seq<Operation>, k: int) -> bool {
    log[k] is Swap ==> k >= 4 && {
        let before = replay(values, log.take(k - 4));
        match (log[k - 4], log[k - 3]) {
            (Operation::Read(first), Operation::Read(second)) => {
                &&& log[k - 2] == Operation::Write(first, before[second as int])
                &&& log[k - 1] == Operation::Write(second, before[first as int])
            },
            _ => false,
        }
    }
}

/// Every `Swap` of the log closes an exchange of two cells, in a log that is
/// replayed on `values`.
pub open spec fn exchanging(values: Seq<u16>, log: Seq<Operation>) -> bool {
    forall|k: int| 0 <= k < log.len() ==> #[trigger] exchanges_at(values, log, k)
}

/// Where position `k` of the log is a `Swap`, it exchanges a cell with a
/// later cell, at most `reach` cells on, that held a smaller value: of the
/// values that the log up to the group leaves when replayed on `values`.
pub open spec fn mends_at(values: Seq<u16>, log: Seq<Operation>, k: int, reach: int) -> bool {
    log[k] is Swap ==> k >= 4 && {
        let before = replay(values, log.take(k - 4));
        match (log[k - 4], log[k - 3]) {
            (Operation::Read(first), Operation::Read(second)) => {
                &&& first < second <= first + reach
                &&& second < before.len()
                &&& before[first as int] > before[second as int]
            },
            _ => false,
        }
    }
}

/// From position `from` on, every `Swap` of the log exchanges a cell with a
/// later cell, at most `reach` cells on, that held a smaller value. With a
/// reach of one, every exchange is of neighbours in the wrong order.
#[verifier::opaque]
pub open spec fn mending(values: Seq<u16>, log: Seq<Operation>, from: int, reach: int) -> bool {
    forall|k: int| 0 <= from <= k < log.len() ==> #[trigger] mends_at(values, log, k, reach)
}

/// From position `from` on, the log holds no `Swap`.
#[verifier::opaque]
pub open spec fn calm(log: Seq<Operation>, from: int) -> bool {
    forall|k: int| 0 <= from <= k < log.len() ==> !(#[trigger] log[k] is Swap)
}

/// Nothing stands after the end of a log.
pub proof fn lemma_nothing_appended(values: Seq<u16>, log: Seq<Operation>, reach: int)
    ensures
        mending(values, log, log.len() as int, reach),
        calm(log, log.len() as int),
{
    reveal(mending);
    reveal(calm);
}

/// One more operation that is no `Swap` changes nothing of the exchanges in
/// the log.
pub proof fn lemma_push_quiet(values: Seq<u16>, log: Seq<Operation>, op: Operation)
    requires
        !(op is Swap),
    ensures
        swaps_in(log.push(op)) == swaps_in(log),
        compares_in(log.push(op)) == compares_in(log) + if op is Compare { 1nat } else { 0nat },
        forall|from: int| #[trigger] calm(log, from) ==> calm(log.push(op), from),
        forall|from: int, reach: int| #[trigger]
            mending(values, log, from, reach) ==> mending(values, log.push(op), from, reach),
{
    reveal(mending);
    reveal(calm);
    let longer = log.push(op);
    assert(longer.drop_last() =~= log);
    assert forall|from: int, reach: int| #[trigger] mending(values, log, from, reach) implies mending(
        values,
        longer,
        from,
        reach,
    ) by {
        assert forall|k: int| 0 <= from <= k < longer.len() implies #[trigger] mends_at(
            values,
            longer,
            k,
            reach,
        ) by {
            if k < log.len() {
                assert(mends_at(values, log, k, reach));
                if log[k] is Swap {
                    assert(longer.take(k - 4) =~= log.take(k - 4));
                }
            }
        }
    }
}

/// A `Swap` after the reads of two cells counts as one more exchange, and
/// keeps the exchanges mending where the first cell lies before the second,
/// within reach, and held more.
pub proof fn lemma_push_swap(values: Seq<u16>, log: Seq<Operation>, first: usize, second: usize)
    requires
        log.len() >= 4,
        log[log.len() - 4] == Operation::Read(first),
        log[log.len() - 3] == Operation::Read(second),
    ensures
        swaps_in(log.push(Operation::Swap)) == swaps_in(log) + 1,
        compares_in(log.push(Operation::Swap)) == compares_in(log),
        forall|from: int, reach: int| #[trigger]
            mending(values, log, from, reach) && first < second <= first + reach && second
                < values.len() && replay(values, log.take(log.len() - 4))[first as int] > replay(
                values,
                log.take(log.len() - 4),
            )[second as int] ==> mending(values, log.push(Operation::Swap), from, reach),
{
    reveal(mending);
    let longer = log.push(Operation::Swap);
    assert(longer.drop_last() =~= log);
    lemma_replay_len(values, log.take(log.len() - 4));
    assert forall|from: int, reach: int| #[trigger]
        mending(values, log, from, reach) && first < second <= first + reach && second
            < values.len() && replay(values, log.take(log.len() - 4))[first as int] > replay(
            values,
            log.take(log.len() - 4),
        )[second as int] implies mending(values, longer, from, reach) by {
        assert forall|k: int| 0 <= from <= k < longer.len() implies #[trigger] mends_at(
            values,
            longer,
            k,
            reach,
        ) by {
            if k < log.len() {
                assert(mends_at(values, log, k, reach));
                if log[k] is Swap {
                    assert(longer.take(k - 4) =~= log.take(k - 4));
                }
            } else {
                assert(longer.take(k - 4) =~= log.take(log.len() - 4));
            }
        }
    }
}

/// How many reads the log holds.
pub open spec fn reads_in(log: Seq<Operation>) -> nat
    decreases log.len(),
{
    if log.len() == 0 {
        0
    } else {
        reads_in(log.drop_last()) + if log.last() is Read { 1nat } else { 0nat }
    }
}

/// How many writes the log holds.
pub open spec fn writes_in(log: Seq<Operation>) -> nat
    decreases log.len(),
{
    if log.len() == 0 {
        0
    } else {
        writes_in(log.drop_last()) + if log.last() is Write { 1nat } else { 0nat }
    }
}

/// How many compare markers the log holds.
pub open spec fn compares_in(log: Seq<Operation>) -> nat
    decreases log.len(),
{
    if log.len() == 0 {
        0
    } else {
        compares_in(log.drop_last()) + if log.last() is Compare { 1nat } else { 0nat }
    }
}

/// How many swap markers the log holds.
pub open spec fn swaps_in(log: Seq<Operation>) -> nat
    decreases log.len(),
{
    if log.len() == 0 {
        0
    } else {
        swaps_in(log.drop_last()) + if log.last() is Swap { 1nat } else { 0nat }
    }
}

/// Every operation is of exactly one kind, so the four counts add up to the
/// length of the log.
pub proof fn lemma_counts_cover(log: Seq<Operation>)
    ensures
        reads_in(log) + writes_in(log) + compares_in(log) + swaps_in(log) == log.len(),
    decreases log.len(),
{
    if log.len() > 0 {
        lemma_counts_cover(log.drop_last());
    }
}

/// Replaying a log is the same as applying its first operation and then
/// replaying the rest.
pub proof fn lemma_replay_front(values: Seq<u16>, log: Seq<Operation>)
    requires
        log.len() > 0,
    ensures
        replay(values, log) == replay(apply_to(values, log[0]), log.drop_first()),
    decreases log.len(),
{
    if log.len() == 1 {
        assert(log.drop_last() =~= Seq::<Operation>::empty());
        assert(log.drop_first() =~= Seq::<Operation>::empty());
        assert(replay(values, log.drop_last()) == values);
    } else {
        lemma_replay_front(values, log.drop_last());
        assert(log.drop_last().drop_first() =~= log.drop_first().drop_last());
        assert(log.drop_last()[0] == log[0]);
        assert(log.drop_first().last() == log.last());
    }
}

/// Replay keeps the number of values.
pub proof fn lemma_replay_len(values: Seq<u16>, log: Seq<Operation>)
    ensures
        replay(values, log).len() == values.len(),
    decreases log.len(),
{
    if log.len() > 0 {
        lemma_replay_len(values, log.drop_last());
    }
}

} // verus!
