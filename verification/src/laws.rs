use vstd::prelude::*;
use vstd::arithmetic::div_mod::lemma_fundamental_div_mod;
use vstd::relations::{sorted_by, total_ordering};
use vstd::seq_lib::lemma_sorted_unique;
use crate::array::{ascending, descending, lemma_run_counts};
use crate::operation::{
    Operation, compares_in, lemma_counts_cover, lemma_replay_len, paired_at, reads_in, swaps_in,
    writes_in,
};
use crate::order::is_sorted;
use crate::sorting::{frames_for, Algorithm, Sorting};

verus! {

/// Sorted values that are a rearrangement of `1, 2, ..., n` are exactly
/// `1, 2, ..., n`.
pub proof fn lemma_sorted_rearrangement(values: Seq<u16>, n: nat)
    requires
        n <= u16::MAX,
        is_sorted(values),
        values.to_multiset() == ascending(n).to_multiset(),
    ensures
        values == ascending(n),
{
    let leq = |a: u16, b: u16| a <= b;
    assert(total_ordering(leq));
    assert(sorted_by(values, leq));
    assert(sorted_by(ascending(n), leq));
    lemma_sorted_unique(values, ascending(n), leq);
}

/// Selecting an algorithm and flushing leaves what the selection promises.
///
/// A sorting algorithm leaves the values sorted, and they are the values
/// that were there, each as often as before. `Shuffle` leaves a
/// rearrangement. `Reverse` leaves exactly `n, n - 1, ..., 1`. With nothing
/// selected the values stay as they are.
pub proof fn lemma_select_then_flush(
    start: Sorting,
    chosen: Sorting,
    done: Sorting,
    algorithm: Algorithm,
)
    requires
        start.wf(),
        chosen.selected(&start, algorithm),
        done.flushed_from(&chosen),
    ensures
        algorithm.sorts() ==> is_sorted(done.visible().values),
        algorithm.sorts() || algorithm is Shuffle ==> done.visible().values.to_multiset()
            == start.visible().values.to_multiset(),
        algorithm is Reverse ==> done.visible().values == descending(start.spec_size() as nat),
        algorithm is Idle ==> done.visible().values == start.visible().values,
{
    assert(done.log().skip(0) =~= done.log());
    lemma_run_counts(chosen.visible(), done.log());
}

/// Selecting a sorting algorithm and flushing, on values that are a
/// rearrangement of `1, 2, ..., n`, leaves exactly `1, 2, ..., n`.
pub proof fn lemma_sort_restores_order(
    start: Sorting,
    chosen: Sorting,
    done: Sorting,
    algorithm: Algorithm,
)
    requires
        start.wf(),
        algorithm.sorts(),
        start.visible().values.to_multiset() == ascending(start.spec_size() as nat).to_multiset(),
        chosen.selected(&start, algorithm),
        done.flushed_from(&chosen),
    ensures
        done.visible().values == ascending(start.spec_size() as nat),
{
    lemma_select_then_flush(start, chosen, done, algorithm);
    lemma_sorted_rearrangement(done.visible().values, start.spec_size() as nat);
}

/// `n, n - 1, ..., 1` is a rearrangement of `1, 2, ..., n`.
pub proof fn lemma_descending_rearranges(n: nat)
    requires
        n <= u16::MAX,
    ensures
        descending(n).to_multiset() == ascending(n).to_multiset(),
{
    assert(descending(n) =~= ascending(n).reverse());
    ascending(n).lemma_reverse_to_multiset();
}

/// Whatever is selected, selecting and flushing on values that are a
/// rearrangement of `1, 2, ..., n` leaves a rearrangement of
/// `1, 2, ..., n`.
pub proof fn lemma_stays_rearrangement(
    start: Sorting,
    chosen: Sorting,
    done: Sorting,
    algorithm: Algorithm,
)
    requires
        start.wf(),
        start.visible().values.to_multiset() == ascending(start.spec_size() as nat).to_multiset(),
        chosen.selected(&start, algorithm),
        done.flushed_from(&chosen),
    ensures
        done.visible().values.to_multiset() == ascending(start.spec_size() as nat).to_multiset(),
{
    lemma_select_then_flush(start, chosen, done, algorithm);
    lemma_descending_rearranges(start.spec_size() as nat);
}

/// After a flush the log is exhausted: the next tick returns `false` and
/// changes neither the values, nor the counters, nor the log, nor the
/// cursor.
pub proof fn lemma_tick_after_flush(before: Sorting, flushed: Sorting, after: Sorting, moved: bool)
    requires
        before.wf(),
        flushed.flushed_from(&before),
        after.ticked_from(&flushed, moved),
    ensures
        !moved,
        after.visible() == flushed.visible(),
        after.log() == flushed.log(),
        after.cursor() == flushed.cursor(),
{
    if flushed.log().len() == 0 {
        assert(flushed.log().skip(before.cursor() as int) =~= Seq::<Operation>::empty());
        assert(after.log() =~= flushed.log());
    }
}

/// In the log of a controller, every `Compare` stands right after two
/// reads, and every `Swap` right after two reads and two writes, the writes
/// to the cells that were read, in the same order.
pub proof fn lemma_markers_close_groups(sorting: Sorting, k: int)
    requires
        sorting.wf(),
        0 <= k < sorting.log().len(),
    ensures
        sorting.log()[k] is Compare ==> k >= 2 && sorting.log()[k - 2] is Read && sorting.log()[k
            - 1] is Read,
        sorting.log()[k] is Swap ==> k >= 4 && exists|left: usize, right: usize, a: u16, b: u16|
            {
                &&& sorting.log()[k - 4] == Operation::Read(left)
                &&& sorting.log()[k - 3] == Operation::Read(right)
                &&& sorting.log()[k - 2] == Operation::Write(left, a)
                &&& sorting.log()[k - 1] == Operation::Write(right, b)
            },
{
    let log = sorting.log();
    assert(paired_at(log, k));
    if log[k] is Swap {
        let left = log[k - 4]->Read_0;
        let right = log[k - 3]->Read_0;
        let a = log[k - 2]->Write_1;
        let b = log[k - 1]->Write_1;
        assert(log[k - 4] == Operation::Read(left));
        assert(log[k - 3] == Operation::Read(right));
        assert(log[k - 2] == Operation::Write(left, a));
        assert(log[k - 1] == Operation::Write(right, b));
    }
}

/// A flush adds to each counter the number of operations of its kind in the
/// part of the log that it played.
pub proof fn lemma_flush_counts(before: Sorting, done: Sorting)
    requires
        before.wf(),
        done.flushed_from(&before),
    ensures
        ({
            let played = done.log().skip(before.cursor() as int);
            &&& done.visible().reads == before.visible().reads + reads_in(played)
            &&& done.visible().writes == before.visible().writes + writes_in(played)
            &&& done.visible().compares == before.visible().compares + compares_in(played)
            &&& done.visible().swaps == before.visible().swaps + swaps_in(played)
        }),
{
    lemma_run_counts(before.visible(), done.log().skip(before.cursor() as int));
}

/// After a selection and a flush, each counter is the number of operations
/// of its kind in the log, and the four counters add up to the length of the
/// log.
pub proof fn lemma_counters_match_log(
    start: Sorting,
    chosen: Sorting,
    done: Sorting,
    algorithm: Algorithm,
)
    requires
        start.wf(),
        chosen.selected(&start, algorithm),
        done.flushed_from(&chosen),
    ensures
        done.visible().reads == reads_in(done.log()),
        done.visible().writes == writes_in(done.log()),
        done.visible().compares == compares_in(done.log()),
        done.visible().swaps == swaps_in(done.log()),
        done.visible().total() == done.log().len(),
{
    assert(done.log().skip(0) =~= done.log());
    lemma_run_counts(chosen.visible(), done.log());
    lemma_counts_cover(done.log());
}

/// Sixty frames a second for `seconds` seconds are enough for the whole
/// log, and one operation less per frame would not be.
pub proof fn lemma_frame_budget_fits(len: nat, seconds: nat)
    requires
        seconds > 0,
    ensures
        frames_for(len, seconds) * (60 * seconds) >= len,
        len > 0 ==> (frames_for(len, seconds) - 1) * (60 * seconds) < len,
{
    let per = (60 * seconds) as int;
    let whole = len as int / per;
    let rest = len as int % per;
    lemma_fundamental_div_mod(len as int, per);
    assert((whole + 1) * per == whole * per + per && (whole - 1) * per == whole * per - per
        && per * whole == whole * per) by (nonlinear_arith);
}

/// Frames called one after the other, on a controller that is left alone in
/// between, never play more than the log holds, and after `60 * seconds`
/// calls the log is played to its end.
///
/// `states[0]` is the controller before the first call, `states[i + 1]`
/// the controller after call `i`, which returned `more[i]`.
pub proof fn lemma_frames_finish(states: Seq<Sorting>, more: Seq<bool>, seconds: u16, calls: int)
    requires
        seconds > 0,
        states[0].wf(),
        1 <= calls < states.len(),
        more.len() + 1 == states.len(),
        forall|i: int|
            0 <= i < more.len() ==> (#[trigger] states[i + 1]).framed_from(
                &states[i],
                seconds,
                more[i],
            ),
    ensures
        states[calls].cursor() <= states[calls].log().len(),
        states[calls].log() == states[1].log(),
        calls >= 60 * seconds ==> states[calls].cursor() == states[calls].log().len(),
{
    let len = states[1].log().len();
    let budget = frames_for(len, seconds as nat);
    lemma_frames_progress(states, more, seconds, calls);
    if calls >= 60 * seconds {
        lemma_frame_budget_fits(len, seconds as nat);
        assert(calls * budget >= (60 * seconds) * budget && (60 * seconds) * budget == budget * (60
            * seconds)) by (nonlinear_arith)
            requires
                calls >= 60 * seconds,
                budget >= 0,
        ;
    }
}

proof fn lemma_frames_progress(states: Seq<Sorting>, more: Seq<bool>, seconds: u16, calls: int)
    requires
        seconds > 0,
        states[0].wf(),
        1 <= calls < states.len(),
        more.len() + 1 == states.len(),
        forall|i: int|
            0 <= i < more.len() ==> (#[trigger] states[i + 1]).framed_from(
                &states[i],
                seconds,
                more[i],
            ),
    ensures
        states[calls].log() == states[1].log(),
        states[calls].spec_size() == states[1].spec_size(),
        states[calls].algorithm() == states[1].algorithm(),
        states[calls].visible().values.len() == states[0].visible().values.len(),
        states[calls].log().len() == 0 ==> states[calls].algorithm().records_nothing(
            states[0].visible().values.len(),
        ),
        states[calls].cursor() <= states[1].log().len(),
        states[calls].cursor() == states[1].log().len() || states[calls].cursor() >= calls
            * frames_for(states[1].log().len(), seconds as nat),
    decreases calls,
{
    let len = states[1].log().len();
    let budget = frames_for(len, seconds as nat);
    if calls == 1 {
        assert(states[0int + 1].framed_from(&states[0], seconds, more[0]));
        let played = states[1].log().subrange(
            states[0].cursor() as int,
            states[1].cursor() as int,
        );
        lemma_run_counts(states[0].visible(), played);
        lemma_replay_len(states[0].visible().values, played);
        assert(1 * budget == budget) by (nonlinear_arith);
    } else {
        lemma_frames_progress(states, more, seconds, calls - 1);
        assert(states[calls - 1 + 1].framed_from(&states[calls - 1], seconds, more[calls - 1]));
        let played = states[calls].log().subrange(
            states[calls - 1].cursor() as int,
            states[calls].cursor() as int,
        );
        lemma_run_counts(states[calls - 1].visible(), played);
        lemma_replay_len(states[calls - 1].visible().values, played);
        if states[calls - 1].log().len() == 0 {
            assert(states[calls].log() =~= states[1].log());
        }
        assert(calls * budget == (calls - 1) * budget + budget) by (nonlinear_arith);
    }
}

} // verus!
