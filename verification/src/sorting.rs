use vstd::prelude::*;
use std::cmp::Ordering;
use vstd::arithmetic::div_mod::lemma_fundamental_div_mod;
use crate::algorithms::{
    BubbleSort, CocktailSort, CycleSort, GnomeSort, HeapSort, InsertionSort, OddEvenSort,
    QuickSort, SelectionSort, ShellSort, SortAlgorithm, records_bubble, records_cocktail,
    records_cycle, records_gnome, records_heap, records_insertion, records_odd_even,
    records_quick, records_selection, records_shell,
};
use crate::array::{Array, ArrayState, ascending, descending, lemma_run_push};
use crate::operation::{
    Operation, apply_to, replay, in_range, paired, paired_at, exchanges_at, exchanging,
    compare_group, swap_group, mending, calm, swaps_in, compares_in, lemma_replay_front,
    lemma_nothing_appended, lemma_push_quiet, lemma_push_swap,
};
use crate::order::{is_sorted, exchanged, lemma_exchange_keeps_values};
use crate::random::pick_below;

verus! {

/// What the controller will record at the next playback request.
#[derive(Clone, Copy, Debug, PartialEq, Eq, Structural)]
pub enum Algorithm {
    /// Nothing selected yet: recording leaves the log empty.
    Idle,
    Bubble,
    Cocktail,
    Selection,
    Insertion,
    Gnome,
    Cycle,
    Heap,
    Shell,
    OddEven,
    Quick,
    Shuffle,
    Reverse,
}

impl Algorithm {
    /// Whether the selection is one of the ten sorting algorithms.
    pub open spec fn sorts(self) -> bool {
        !(self is Idle || self is Shuffle || self is Reverse)
    }

    /// Whether recording on `size` values leaves the log empty: always when
    /// nothing is selected, for `Reverse` on no values, and for all others on
    /// fewer than two values.
    pub open spec fn records_nothing(self, size: nat) -> bool {
        match self {
            Algorithm::Idle => true,
            Algorithm::Reverse => size == 0,
            _ => size < 2,
        }
    }
}

/// What holds of the values that a finished playback leaves: a sorting
/// algorithm leaves them sorted, `Reverse` leaves `size, ..., 1`.
pub open spec fn reaches_goal(algorithm: Algorithm, values: Seq<u16>) -> bool {
    &&& algorithm.sorts() ==> is_sorted(values)
    &&& algorithm is Reverse ==> values == descending(values.len())
}

/// The first `count` operations that `Reverse` records on `size` values: one
/// write per cell, in order, of `size - index`.
pub open spec fn reversal_upto(size: nat, count: nat) -> Seq<Operation> {
    Seq::new(count, |i: int| Operation::Write(i as usize, (size - i) as u16))
}

/// The log that `Reverse` records on `size` values.
pub open spec fn reversal(size: nat) -> Seq<Operation> {
    reversal_upto(size, size)
}

/// Group `i` of a log that `Shuffle` records on `values`: the five
/// operations of the exchange of cell `i` with some cell below
/// `values.len() - 1`, of the values that the log before the group leaves in
/// the two cells.
pub open spec fn shuffle_group_at(values: Seq<u16>, log: Seq<Operation>, i: int) -> bool {
    let before = replay(values, log.take(5 * i));
    log[5 * i + 1] matches Operation::Read(other) && other < values.len() - 1 && log.subrange(
        5 * i,
        5 * i + 5,
    ) == swap_group(i as usize, other, before[i], before[other as int])
}

/// The first `count` groups that `Shuffle` records on `values`: group `i`
/// exchanges cell `i` with a cell below `values.len() - 1`. Which cell is
/// left to chance; everything else is fixed.
pub open spec fn shuffled_upto(values: Seq<u16>, log: Seq<Operation>, count: nat) -> bool {
    &&& log.len() == 5 * count
    &&& forall|i: int| 0 <= i < count ==> #[trigger] shuffle_group_at(values, log, i)
}

/// What the log of a sorting algorithm is, beyond what holds of all ten:
/// what the algorithm appends to an empty log on `values`.
pub open spec fn is_trace_of(algorithm: Algorithm, values: Seq<u16>, log: Seq<Operation>) -> bool {
    let nothing = Seq::<Operation>::empty();
    match algorithm {
        Algorithm::Bubble => records_bubble(values, nothing, log, values),
        Algorithm::Cocktail => records_cocktail(values, nothing, log, values),
        Algorithm::Selection => records_selection(values, nothing, log, values),
        Algorithm::Insertion => records_insertion(values, nothing, log, values),
        Algorithm::Gnome => records_gnome(values, nothing, log, values),
        Algorithm::Cycle => records_cycle(values, nothing, log, values),
        Algorithm::Heap => records_heap(values, nothing, log, values),
        Algorithm::Shell => records_shell(values, nothing, log, values),
        Algorithm::OddEven => records_odd_even(values, nothing, log, values),
        Algorithm::Quick => records_quick(values, nothing, log, values),
        _ => true,
    }
}

/// What a recording of `algorithm` on `values` is.
///
/// The log pairs its markers, every `Swap` of it closes an exchange, and it
/// stays inside the values. It is empty exactly when the algorithm records
/// nothing on that many values. A sorting algorithm's log replays to the
/// sorted values and has the shape that is the algorithm's own, `Reverse`
/// records exactly its writes, and `Shuffle` records one exchange for each
/// cell but the last and replays to a rearrangement.
pub open spec fn is_recording_of(algorithm: Algorithm, values: Seq<u16>, log: Seq<Operation>) -> bool {
    &&& paired(log)
    &&& exchanging(values, log)
    &&& in_range(log, values.len())
    &&& (log.len() == 0) == algorithm.records_nothing(values.len())
    &&& match algorithm {
        Algorithm::Idle => true,
        Algorithm::Reverse => log == reversal(values.len()) && replay(values, log) == descending(
            values.len(),
        ),
        Algorithm::Shuffle => {
            &&& replay(values, log).to_multiset() == values.to_multiset()
            &&& values.len() >= 2 ==> shuffled_upto(values, log, (values.len() - 1) as nat)
        },
        _ => {
            &&& is_sorted(replay(values, log))
            &&& replay(values, log).to_multiset() == values.to_multiset()
            &&& is_trace_of(algorithm, values, log)
        },
    }
}

/// How many operations one call of `frame` plays: the length of the log
/// divided by `60 * seconds`, rounded up.
pub open spec fn frames_for(len: nat, seconds: nat) -> nat {
    if len % (60 * seconds) == 0 {
        len / (60 * seconds)
    } else {
        len / (60 * seconds) + 1
    }
}

/// The number of operations that one call of `frame` plays, for a log of
/// `len` operations that is to take `seconds` seconds at sixty calls a
/// second.
pub fn frame_budget(len: usize, seconds: u16) -> (budget: usize)
    requires
        seconds > 0,
    ensures
        budget == frames_for(len as nat, seconds as nat),
        len == 0 ==> budget == 0,
{
    let per_call: usize = 60 * (seconds as usize);
    let whole: usize = len / per_call;
    let rest: usize = len % per_call;
    proof {
        lemma_fundamental_div_mod(len as int, per_call as int);
        assert(whole * 60 <= len) by (nonlinear_arith)
            requires
                len == per_call * whole + rest,
                per_call >= 60,
                rest >= 0,
                whole >= 0,
        ;
    }
    if rest != 0 {
        whole + 1
    } else {
        whole
    }
}

/// The controller: the visible array, the selected algorithm, the recorded
/// log and the playback cursor.
pub struct Sorting {
    array: Array,
    size: usize,
    pre_sort_array: Vec<u16>,
    algo: Algorithm,
    operations: Vec<Operation>,
    current_operation: usize,
}

impl Sorting {
    /// The visible array: its values and counters.
    pub closed spec fn visible(&self) -> ArrayState {
        self.array@
    }

    pub closed spec fn spec_size(&self) -> usize {
        self.size
    }

    /// The work buffer: empty except while a recording runs.
    pub closed spec fn work(&self) -> Seq<u16> {
        self.pre_sort_array@
    }

    pub closed spec fn algorithm(&self) -> Algorithm {
        self.algo
    }

    /// The operation log.
    pub closed spec fn log(&self) -> Seq<Operation> {
        self.operations@
    }

    /// How many operations of the log have been applied to the visible array.
    pub closed spec fn cursor(&self) -> nat {
        self.current_operation as nat
    }

    /// The value in cell `index` of the work buffer.
    pub open spec fn peek(&self, index: usize) -> u16 {
        self.work()[index as int]
    }

    /// The values that the visible array will hold once the rest of the log
    /// has been played.
    pub open spec fn outcome(&self) -> Seq<u16> {
        replay(self.visible().values, self.log().skip(self.cursor() as int))
    }

    /// What holds of the controller at every moment.
    pub open spec fn sound(&self) -> bool {
        &&& self.visible().values.len() == self.spec_size()
        &&& self.spec_size() <= u16::MAX
        &&& self.cursor() <= self.log().len()
        &&& self.visible().total() <= self.cursor()
        &&& paired(self.log())
        &&& in_range(self.log(), self.spec_size() as nat)
    }

    /// The controller between calls: no recording runs, and a recorded log
    /// leads the visible array to the goal of the selected algorithm.
    pub open spec fn wf(&self) -> bool {
        &&& self.sound()
        &&& self.work().len() == 0
        &&& self.log().len() > 0 ==> reaches_goal(self.algorithm(), self.outcome())
    }

    /// The log is a faithful trace: replayed on the visible values, it gives
    /// the work buffer, and every `Swap` of it closes an exchange.
    pub closed spec fn traced(&self) -> bool {
        &&& self.sound()
        &&& self.cursor() == 0
        &&& replay(self.visible().values, self.log()) == self.work()
        &&& exchanging(self.visible().values, self.log())
    }

    /// The controller while a recording runs: the work buffer has one cell
    /// per value, and the log so far is a faithful trace of it.
    pub open spec fn recording(&self) -> bool {
        &&& self.work().len() == self.spec_size()
        &&& self.spec_size() <= u16::MAX
        &&& self.traced()
    }

    /// The log of `self` starts with the whole log of `origin`.
    pub closed spec fn continues(&self, origin: &Sorting) -> bool {
        origin.log().is_prefix_of(self.log())
    }

    /// `self` is a later moment of the recording that `origin` is a moment
    /// of: the log has only grown, and nothing but the log and the work
    /// buffer has changed.
    pub open spec fn advances(&self, origin: &Sorting) -> bool {
        &&& self.recording()
        &&& self.continues(origin)
        &&& self.visible() == origin.visible()
        &&& self.spec_size() == origin.spec_size()
        &&& self.algorithm() == origin.algorithm()
    }

    /// `self` is `before` with `ops` appended to the log and `work` as the
    /// work buffer; nothing else has changed.
    pub open spec fn recorded_after(&self, before: &Sorting, ops: Seq<Operation>, work: Seq<u16>) -> bool {
        &&& self.log() == before.log() + ops
        &&& self.work() == work
        &&& self.visible() == before.visible()
        &&& self.spec_size() == before.spec_size()
        &&& self.cursor() == before.cursor()
        &&& self.algorithm() == before.algorithm()
    }

    /// What the log of `self` has gained over the log of `before`: so many
    /// `Swap` and `Compare` markers, and nothing before its old end has
    /// changed. Where it gained no `Swap`, what held of the exchanges in the
    /// log still holds.
    pub open spec fn grown_from(&self, before: &Sorting, swaps: nat, compares: nat) -> bool {
        &&& swaps_in(self.log()) == swaps_in(before.log()) + swaps
        &&& compares_in(self.log()) == compares_in(before.log()) + compares
        &&& forall|k: int|
            0 <= k < before.log().len() ==> #[trigger] self.log()[k] == before.log()[k]
        &&& swaps == 0 ==> forall|from: int| #[trigger]
            calm(before.log(), from) ==> calm(self.log(), from)
        &&& swaps == 0 ==> forall|from: int, reach: int| #[trigger]
            mending(before.visible().values, before.log(), from, reach) ==> mending(
                self.visible().values,
                self.log(),
                from,
                reach,
            )
    }

    /// The exchange of cells `left` and `right` that took `before` to `self`
    /// keeps the exchanges of a recording mending, where `left` lies before
    /// `right`, within reach, and held more.
    pub open spec fn mended_from(&self, before: &Sorting, left: usize, right: usize) -> bool {
        forall|from: int, reach: int| #[trigger]
            mending(before.visible().values, before.log(), from, reach) && before.recording()
                && left < right <= left + reach && before.peek(left) > before.peek(right)
                ==> mending(self.visible().values, self.log(), from, reach)
    }

    /// `self` is `before` right after the selection of `algorithm`: the log
    /// is empty, the cursor and the four counters are at zero, and the values
    /// are untouched.
    pub open spec fn selected(&self, before: &Sorting, algorithm: Algorithm) -> bool {
        &&& self.algorithm() == algorithm
        &&& self.log().len() == 0
        &&& self.cursor() == 0
        &&& self.visible() == before.visible().cleared()
        &&& self.spec_size() == before.spec_size()
        &&& self.work() == before.work()
    }

    /// The log of `self` against the log of `before`, over one playback
    /// request: a log that was there is kept, an empty one is replaced by a
    /// recording of the selected algorithm on the visible values.
    pub open spec fn charted(&self, before: &Sorting) -> bool {
        &&& self.spec_size() == before.spec_size()
        &&& self.algorithm() == before.algorithm()
        &&& if before.log().len() > 0 {
            self.log() == before.log()
        } else {
            is_recording_of(self.algorithm(), before.visible().values, self.log())
        }
    }

    /// `self` is `before` after one `tick` that returned `moved`: the
    /// operation under the cursor, if there is one, has been applied.
    pub open spec fn ticked_from(&self, before: &Sorting, moved: bool) -> bool {
        &&& self.charted(before)
        &&& moved == (before.cursor() < self.log().len())
        &&& if moved {
            &&& self.cursor() == before.cursor() + 1
            &&& self.visible() == before.visible().step(self.log()[before.cursor() as int])
        } else {
            &&& self.cursor() == before.cursor()
            &&& self.visible() == before.visible()
        }
    }

    /// `self` is `before` after `flush`: the rest of the log has been
    /// applied.
    pub open spec fn flushed_from(&self, before: &Sorting) -> bool {
        &&& self.charted(before)
        &&& self.cursor() == self.log().len()
        &&& self.visible() == before.visible().run(self.log().skip(before.cursor() as int))
    }

    /// `self` is `before` after one `frame` over `seconds` that returned
    /// `more`: the frame's share of the log has been applied, or what was
    /// left of the log if that is less.
    pub open spec fn framed_from(&self, before: &Sorting, seconds: u16, more: bool) -> bool {
        let budget = frames_for(self.log().len(), seconds as nat);
        &&& self.charted(before)
        &&& more == (before.cursor() + budget <= self.log().len())
        &&& self.cursor() == if more {
            before.cursor() + budget
        } else {
            self.log().len()
        }
        &&& self.visible() == before.visible().run(
            self.log().subrange(before.cursor() as int, self.cursor() as int),
        )
    }

    /// What a running recording stands for: the controller is sound, nothing
    /// has been played yet, and the log so far is a faithful trace. Replayed
    /// on the visible values it gives the work buffer, and every `Swap` of it
    /// closes an exchange.
    pub proof fn lemma_recording_means(&self)
        requires
            self.recording(),
        ensures
            self.sound(),
            self.cursor() == 0,
            replay(self.visible().values, self.log()) == self.work(),
            exchanging(self.visible().values, self.log()),
    {
    }

    /// What it means that `self` continues `origin`: its log starts with
    /// the whole log of `origin`, so it is at least as long, and the same if
    /// as long.
    pub proof fn lemma_continues(&self, origin: &Sorting)
        requires
            self.continues(origin),
        ensures
            origin.log().is_prefix_of(self.log()),
            self.log().len() >= origin.log().len(),
            self.log().len() == origin.log().len() ==> self.log() == origin.log(),
    {
        if self.log().len() == origin.log().len() {
            assert(self.log().subrange(0, self.log().len() as int) =~= self.log());
        }
    }

    /// A recording advances itself, and nothing has been appended to its log
    /// yet.
    pub proof fn lemma_recording_begins(&self)
        requires
            self.recording(),
        ensures
            self.advances(self),
            calm(self.log(), self.log().len() as int),
            forall|reach: int| #[trigger]
                mending(self.visible().values, self.log(), self.log().len() as int, reach),
    {
        assert(self.log().subrange(0, self.log().len() as int) =~= self.log());
        assert forall|reach: int| #[trigger]
            mending(self.visible().values, self.log(), self.log().len() as int, reach) by {
            lemma_nothing_appended(self.visible().values, self.log(), reach);
        }
        lemma_nothing_appended(self.visible().values, self.log(), 0);
    }

    /// One more operation at the end of the log keeps the recording
    /// faithful: a read or a write inside the buffer, or a marker that closes
    /// its group. A `Swap` closes an exchange where `known` holds.
    proof fn lemma_one_more(before: Sorting, after: Sorting, op: Operation, known: bool)
        requires
            after.recorded_after(&before, seq![op], apply_to(before.work(), op)),
            match op {
                Operation::Read(index) => index < before.work().len(),
                Operation::Write(index, _) => index < before.work().len(),
                _ => {
                    &&& paired_at(after.log(), after.log().len() - 1)
                    &&& known ==> exchanges_at(
                        before.visible().values,
                        after.log(),
                        after.log().len() - 1,
                    )
                },
            },
        ensures
            forall|origin: Sorting| #[trigger]
                before.advances(&origin) && known ==> after.advances(&origin),
    {
        assert forall|origin: Sorting| #[trigger] before.advances(&origin) && known implies after.advances(
            &origin,
        ) by {
            let log = before.log();
            let values = before.visible().values;
            assert(after.log() =~= log.push(op));
            assert(after.log().drop_last() =~= log);
            assert(after.log().last() == op);
            assert forall|k: int| 0 <= k < after.log().len() implies #[trigger] paired_at(
                after.log(),
                k,
            ) by {
                if k < log.len() {
                    assert(paired_at(log, k));
                }
            }
            assert forall|k: int| 0 <= k < after.log().len() implies #[trigger] exchanges_at(
                values,
                after.log(),
                k,
            ) by {
                if k < log.len() {
                    assert(exchanges_at(values, log, k));
                    if log[k] is Swap {
                        assert(after.log().take(k - 4) =~= log.take(k - 4));
                    }
                }
            }
            assert(origin.log() =~= after.log().subrange(0, origin.log().len() as int)) by {
                assert(origin.log() =~= log.subrange(0, origin.log().len() as int));
            }
        }
    }

    /// A controller for `size` values: the visible array holds
    /// `1, 2, ..., size`, the counters are at zero, nothing is selected and
    /// the log is empty.
    pub fn new(size: usize) -> (sorting: Self)
        requires
            size <= u16::MAX,
        ensures
            sorting.wf(),
            sorting.spec_size() == size,
            sorting.visible().values == ascending(size as nat),
            sorting.visible() == sorting.visible().cleared(),
            sorting.algorithm() == Algorithm::Idle,
            sorting.log().len() == 0,
            sorting.cursor() == 0,
    {
        Self {
            array: Array::new(size),
            size,
            pre_sort_array: Vec::with_capacity(size),
            algo: Algorithm::Idle,
            operations: Vec::new(),
            current_operation: 0,
        }
    }

    #[verifier::when_used_as_spec(spec_size)]
    pub fn size(&self) -> (size: usize)
        ensures
            size == self.spec_size(),
    {
        self.size
    }

    /// The current values of the visible array.
    pub fn values(&self) -> (values: &[u16])
        ensures
            values@ == self.visible().values,
    {
        self.array.get_values()
    }

    /// The operation applied last, or `None` before the first one.
    pub fn operation(&self) -> (last: Option<Operation>)
        requires
            self.wf(),
        ensures
            last == if self.cursor() == 0 {
                None
            } else {
                Some(self.log()[self.cursor() - 1])
            },
    {
        if self.current_operation == 0 || self.operations.is_empty() {
            return None;
        }
        Some(self.operations[self.current_operation - 1])
    }

    pub fn reads(&self) -> (reads: usize)
        ensures
            reads == self.visible().reads,
    {
        self.array.get_reads()
    }

    pub fn writes(&self) -> (writes: usize)
        ensures
            writes == self.visible().writes,
    {
        self.array.get_writes()
    }

    pub fn compares(&self) -> (compares: usize)
        ensures
            compares == self.visible().compares,
    {
        self.array.get_compares()
    }

    pub fn swaps(&self) -> (swaps: usize)
        ensures
            swaps == self.visible().swaps,
    {
        self.array.get_swaps()
    }

    /// Sets the four counters to zero; the values, the log and the cursor
    /// stay.
    pub fn reset_stats(&mut self)
        requires
            old(self).wf(),
        ensures
            final(self).wf(),
            final(self).visible() == old(self).visible().cleared(),
            final(self).log() == old(self).log(),
            final(self).cursor() == old(self).cursor(),
            final(self).algorithm() == old(self).algorithm(),
            final(self).spec_size() == old(self).spec_size(),
    {
        self.array.reset_stats();
    }

    fn set_algo(&mut self, algo: Algorithm)
        requires
            old(self).wf(),
        ensures
            final(self).wf(),
            final(self).selected(old(self), algo),
    {
        self.algo = algo;
        self.operations = Vec::new();
        self.current_operation = 0;
        self.array.reset_stats();
    }

    /// Selects bubble sort.
    pub fn bubble(&mut self)
        requires
            old(self).wf(),
        ensures
            final(self).wf(),
            final(self).selected(old(self), Algorithm::Bubble),
    {
        self.set_algo(Algorithm::Bubble);
    }

    /// Selects selection sort.
    pub fn selection(&mut self)
        requires
            old(self).wf(),
        ensures
            final(self).wf(),
            final(self).selected(old(self), Algorithm::Selection),
    {
        self.set_algo(Algorithm::Selection);
    }

    /// Selects cocktail sort.
    pub fn cocktail(&mut self)
        requires
            old(self).wf(),
        ensures
            final(self).wf(),
            final(self).selected(old(self), Algorithm::Cocktail),
    {
        self.set_algo(Algorithm::Cocktail);
    }

    /// Selects insertion sort.
    pub fn insertion(&mut self)
        requires
            old(self).wf(),
        ensures
            final(self).wf(),
            final(self).selected(old(self), Algorithm::Insertion),
    {
        self.set_algo(Algorithm::Insertion);
    }

    /// Selects gnome sort.
    pub fn gnome(&mut self)
        requires
            old(self).wf(),
        ensures
            final(self).wf(),
            final(self).selected(old(self), Algorithm::Gnome),
    {
        self.set_algo(Algorithm::Gnome);
    }

    /// Selects cycle sort.
    pub fn cycle(&mut self)
        requires
            old(self).wf(),
        ensures
            final(self).wf(),
            final(self).selected(old(self), Algorithm::Cycle),
    {
        self.set_algo(Algorithm::Cycle);
    }

    /// Selects heap sort.
    pub fn heap(&mut self)
        requires
            old(self).wf(),
        ensures
            final(self).wf(),
            final(self).selected(old(self), Algorithm::Heap),
    {
        self.set_algo(Algorithm::Heap);
    }

    /// Selects shell sort.
    pub fn shell(&mut self)
        requires
            old(self).wf(),
        ensures
            final(self).wf(),
            final(self).selected(old(self), Algorithm::Shell),
    {
        self.set_algo(Algorithm::Shell);
    }

    /// Selects odd-even sort.
    pub fn odd_even(&mut self)
        requires
            old(self).wf(),
        ensures
            final(self).wf(),
            final(self).selected(old(self), Algorithm::OddEven),
    {
        self.set_algo(Algorithm::OddEven);
    }

    /// Selects quicksort.
    pub fn quick_sort(&mut self)
        requires
            old(self).wf(),
        ensures
            final(self).wf(),
            final(self).selected(old(self), Algorithm::Quick),
    {
        self.set_algo(Algorithm::Quick);
    }

    /// Selects the shuffle: every cell but the last is exchanged with a cell
    /// drawn at random among all but the last.
    pub fn shuffle(&mut self)
        requires
            old(self).wf(),
        ensures
            final(self).wf(),
            final(self).selected(old(self), Algorithm::Shuffle),
    {
        self.set_algo(Algorithm::Shuffle);
    }

    /// Selects the reversal: cell `i` is overwritten with `size - i`.
    pub fn reverse(&mut self)
        requires
            old(self).wf(),
        ensures
            final(self).wf(),
            final(self).selected(old(self), Algorithm::Reverse),
    {
        self.set_algo(Algorithm::Reverse);
    }

    fn run_shuffle(&mut self)
        requires
            old(self).recording(),
            old(self).log().len() == 0,
        ensures
            final(self).advances(old(self)),
            final(self).work().to_multiset() == old(self).work().to_multiset(),
            final(self).spec_size() < 2 ==> final(self).log().len() == 0,
            final(self).spec_size() >= 2 ==> shuffled_upto(
                final(self).visible().values,
                final(self).log(),
                (final(self).spec_size() - 1) as nat,
            ),
    {
        proof {
            self.lemma_recording_begins();
        }
        if self.size < 2 {
            return ;
        }
        let mut rng = rand::thread_rng();
        let size = self.size;
        let ghost values = self.visible().values;

        for i in 0..size - 1
            invariant
                size == self.spec_size(),
                size >= 2,
                values == self.visible().values,
                self.advances(old(self)),
                self.work().to_multiset() == old(self).work().to_multiset(),
                shuffled_upto(values, self.log(), i as nat),
        {
            let j = pick_below(&mut rng, size - 1);
            let ghost before = self.log();
            let ghost buffer = self.work();
            self.pre_swap(i, j);
            proof {
                let log = self.log();
                let group = swap_group(i, j, buffer[i as int], buffer[j as int]);
                assert(log == before + group);
                assert forall|k: int| 0 <= k < i + 1 implies #[trigger] shuffle_group_at(
                    values,
                    log,
                    k,
                ) by {
                    if k < i {
                        assert(shuffle_group_at(values, before, k));
                        assert(log.take(5 * k) =~= before.take(5 * k));
                        assert(log.subrange(5 * k, 5 * k + 5) =~= before.subrange(
                            5 * k,
                            5 * k + 5,
                        ));
                        assert(log[5 * k + 1] == before[5 * k + 1]);
                    } else {
                        assert(log.take(5 * k) =~= before);
                        assert(log.subrange(5 * k, 5 * k + 5) =~= group);
                        assert(log[5 * k + 1] == group[1]);
                    }
                }
            }
        }
    }

    fn run_reverse(&mut self)
        requires
            old(self).recording(),
            old(self).log().len() == 0,
        ensures
            final(self).advances(old(self)),
            final(self).work() == descending(final(self).spec_size() as nat),
            final(self).log() == reversal(final(self).spec_size() as nat),
    {
        proof {
            self.lemma_recording_begins();
            assert(self.log() =~= reversal_upto(self.size as nat, 0));
        }
        let size = self.size;
        for i in 0..size
            invariant
                size == self.spec_size(),
                self.advances(old(self)),
                self.log() == reversal_upto(size as nat, i as nat),
                forall|k: int| 0 <= k < i ==> self.work()[k] == (size - k) as u16,
        {
            self.pre_write(i, (size - i) as u16);
            proof {
                assert(self.log() =~= reversal_upto(size as nat, (i + 1) as nat));
            }
        }
        proof {
            assert(self.work() =~= descending(size as nat));
        }
    }

    /// Records the selected algorithm: copies the visible values into the
    /// work buffer, runs the algorithm on the buffer through the recording
    /// primitives, and drops the buffer. The visible array is not touched.
    pub fn pre_sort(&mut self)
        requires
            old(self).wf(),
            old(self).log().len() == 0,
        ensures
            final(self).wf(),
            final(self).charted(old(self)),
            final(self).visible() == old(self).visible(),
            final(self).cursor() == old(self).cursor(),
    {
        self.pre_sort_array.extend_from_slice(self.array.get_values());
        proof {
            assert(self.pre_sort_array@ =~= self.array@.values);
            assert(self.operations@ =~= Seq::<Operation>::empty());
        }
        let ghost begun = *self;

        let algo = self.algo;
        match algo {
            Algorithm::Idle => {},
            Algorithm::Bubble => BubbleSort::sort(self),
            Algorithm::Cocktail => CocktailSort::sort(self),
            Algorithm::Selection => SelectionSort::sort(self),
            Algorithm::Insertion => InsertionSort::sort(self),
            Algorithm::Gnome => GnomeSort::sort(self),
            Algorithm::Cycle => CycleSort::sort(self),
            Algorithm::Heap => HeapSort::sort(self),
            Algorithm::Shell => ShellSort::sort(self),
            Algorithm::OddEven => OddEvenSort::sort(self),
            Algorithm::Quick => QuickSort::sort(self),
            Algorithm::Shuffle => self.run_shuffle(),
            Algorithm::Reverse => self.run_reverse(),
        }

        proof {
            assert(self.log().skip(0) =~= self.log());
            assert(replay(self.visible().values, self.log()) == self.pre_sort_array@);
        }
        self.pre_sort_array.clear();
    }

    /// Applies the next operation of the log to the visible array.
    ///
    /// An empty log is first replaced by a recording of the selected
    /// algorithm. Returns whether an operation was applied: `false` means
    /// that the log is exhausted, and nothing has changed.
    pub fn tick(&mut self) -> (moved: bool)
        requires
            old(self).wf(),
        ensures
            final(self).wf(),
            final(self).ticked_from(old(self), moved),
    {
        if self.operations.is_empty() {
            self.pre_sort();
        }
        if self.current_operation < self.operations.len() {
            let operation = self.operations[self.current_operation];
            proof {
                let rest = self.log().skip(self.cursor() as int);
                lemma_replay_front(self.visible().values, rest);
                assert(rest.drop_first() =~= self.log().skip(self.cursor() as int + 1));
                assert(rest[0] == operation);
            }
            self.array.apply(&operation);
            self.current_operation += 1;
            true
        } else {
            false
        }
    }

    /// Plays the log to its end.
    pub fn flush(&mut self)
        requires
            old(self).wf(),
        ensures
            final(self).wf(),
            final(self).flushed_from(old(self)),
    {
        let ghost start = old(self).visible();
        let ghost from = old(self).cursor() as int;
        proof {
            assert(self.log().subrange(from, from) =~= Seq::<Operation>::empty());
        }
        loop
            invariant
                self.wf(),
                self.spec_size() == old(self).spec_size(),
                self.algorithm() == old(self).algorithm(),
                start == old(self).visible(),
                from == old(self).cursor(),
                old(self).log().len() > 0 ==> self.log() == old(self).log(),
                old(self).log().len() == 0 && self.log().len() > 0 ==> is_recording_of(
                    self.algorithm(),
                    start.values,
                    self.log(),
                ),
                self.log().len() == 0 ==> self.visible() == start && self.cursor() == 0,
                0 <= from <= self.cursor(),
                self.log().len() > 0 ==> self.visible() == start.run(
                    self.log().subrange(from, self.cursor() as int),
                ),
            decreases (if self.log().len() == 0 { 1int } else { 0int }), self.log().len() - self.cursor(),
        {
            let ghost before = *self;
            if !self.tick() {
                proof {
                    assert(self.log().skip(from) =~= self.log().subrange(from, self.cursor() as int));
                }
                return ;
            }
            proof {
                let played = self.log().subrange(from, before.cursor() as int);
                assert(self.log().subrange(from, self.cursor() as int) =~= played.push(
                    self.log()[before.cursor() as int],
                ));
                lemma_run_push(start, played, self.log()[before.cursor() as int]);
                if before.log().len() == 0 {
                    assert(played =~= Seq::<Operation>::empty());
                }
            }
        }
    }

    /// Plays one frame's share of the log, sized so that sixty calls a
    /// second play the whole log in `seconds` seconds.
    ///
    /// An empty log is first replaced by a recording of the selected
    /// algorithm. Returns `false` as soon as the log is exhausted before the
    /// share is played, and `true` otherwise.
    pub fn frame(&mut self, seconds: u16) -> (more: bool)
        requires
            old(self).wf(),
            seconds > 0,
        ensures
            final(self).wf(),
            final(self).framed_from(old(self), seconds, more),
    {
        if self.operations.is_empty() {
            self.pre_sort();
        }
        let frames_count = frame_budget(self.operations.len(), seconds);
        let ghost recorded = *self;
        let ghost from = self.cursor() as int;
        proof {
            assert(self.log().subrange(from, from) =~= Seq::<Operation>::empty());
        }

        let mut played: usize = 0;
        while played < frames_count
            invariant
                self.wf(),
                played <= frames_count,
                frames_count == frames_for(self.log().len(), seconds as nat),
                frames_count > 0 ==> self.log().len() > 0,
                recorded.charted(old(self)),
                recorded.visible() == old(self).visible(),
                recorded.cursor() == old(self).cursor(),
                self.spec_size() == recorded.spec_size(),
                self.algorithm() == recorded.algorithm(),
                self.log() == recorded.log(),
                from == recorded.cursor(),
                self.cursor() == from + played,
                self.visible() == recorded.visible().run(
                    self.log().subrange(from, self.cursor() as int),
                ),
            decreases frames_count - played,
        {
            let ghost before = *self;
            if !self.tick() {
                return false;
            }
            proof {
                let done = self.log().subrange(from, before.cursor() as int);
                assert(self.log().subrange(from, self.cursor() as int) =~= done.push(
                    self.log()[before.cursor() as int],
                ));
                lemma_run_push(recorded.visible(), done, self.log()[before.cursor() as int]);
            }
            played += 1;
        }
        true
    }

    /// Records the read of cell `index` and returns the value found there.
    pub fn pre_read(&mut self, index: usize) -> (value: u16)
        requires
            index < old(self).work().len(),
        ensures
            value == old(self).work()[index as int],
            final(self).recorded_after(old(self), seq![Operation::Read(index)], old(self).work()),
            final(self).grown_from(old(self), 0, 0),
            forall|origin: Sorting| #[trigger]
                old(self).advances(&origin) ==> final(self).advances(&origin),
    {
        self.operations.push(Operation::Read(index));
        proof {
            lemma_push_quiet(self.visible().values, old(self).log(), Operation::Read(index));
            assert(self.log() =~= old(self).log() + seq![Operation::Read(index)]);
            Self::lemma_one_more(*old(self), *self, Operation::Read(index), true);
        }
        self.pre_sort_array[index]
    }

    /// Records the write of `value` to cell `index` and stores it there.
    pub fn pre_write(&mut self, index: usize, value: u16)
        requires
            index < old(self).work().len(),
        ensures
            final(self).recorded_after(
                old(self),
                seq![Operation::Write(index, value)],
                old(self).work().update(index as int, value),
            ),
            final(self).grown_from(old(self), 0, 0),
            forall|origin: Sorting| #[trigger]
                old(self).advances(&origin) ==> final(self).advances(&origin),
    {
        self.operations.push(Operation::Write(index, value));
        self.pre_sort_array[index] = value;
        proof {
            lemma_push_quiet(
                self.visible().values,
                old(self).log(),
                Operation::Write(index, value),
            );
            assert(self.log() =~= old(self).log() + seq![Operation::Write(index, value)]);
            Self::lemma_one_more(*old(self), *self, Operation::Write(index, value), true);
        }
    }

    /// Exchanges two cells of the work buffer and records it: both reads,
    /// both writes, then the `Swap` marker.
    pub fn pre_swap(&mut self, left_index: usize, right_index: usize)
        requires
            left_index < old(self).work().len(),
            right_index < old(self).work().len(),
        ensures
            final(self).recorded_after(
                old(self),
                swap_group(
                    left_index,
                    right_index,
                    old(self).peek(left_index),
                    old(self).peek(right_index),
                ),
                exchanged(old(self).work(), left_index as int, right_index as int),
            ),
            final(self).work().to_multiset() == old(self).work().to_multiset(),
            final(self).grown_from(old(self), 1, 0),
            final(self).mended_from(old(self), left_index, right_index),
            forall|origin: Sorting| #[trigger]
                old(self).advances(&origin) ==> final(self).advances(&origin),
    {
        let left = self.pre_read(left_index);
        let right = self.pre_read(right_index);

        self.pre_write(left_index, right);
        self.pre_write(right_index, left);
        let ghost written = *self;

        self.operations.push(Operation::Swap);
        proof {
            let group = swap_group(left_index, right_index, left, right);
            assert(self.log() =~= old(self).log() + group);
            assert(self.log() =~= written.log() + seq![Operation::Swap]);
            let last = self.log().len() - 1;
            assert(self.log()[last - 4] == group[0]);
            assert(self.log()[last - 3] == group[1]);
            assert(self.log()[last - 2] == group[2]);
            assert(self.log()[last - 1] == group[3]);
            assert(self.log()[last] == group[4]);
            assert(paired_at(self.log(), last));
            if old(self).traced() {
                assert(self.log().take(last - 4) =~= old(self).log());
                assert(exchanges_at(self.visible().values, self.log(), last));
            }
            Self::lemma_one_more(written, *self, Operation::Swap, old(self).traced());
            lemma_exchange_keeps_values(old(self).work(), left_index as int, right_index as int);
            lemma_push_swap(self.visible().values, written.log(), left_index, right_index);
            assert(written.log().take(written.log().len() - 4) =~= old(self).log());
            assert forall|from: int, reach: int| #[trigger]
                mending(old(self).visible().values, old(self).log(), from, reach) && old(
                    self,
                ).recording() && left_index < right_index <= left_index + reach && old(self).peek(
                    left_index,
                ) > old(self).peek(right_index) implies mending(
                self.visible().values,
                self.log(),
                from,
                reach,
            ) by {
                assert(mending(self.visible().values, written.log(), from, reach));
            }
        }
    }

    /// Compares two cells of the work buffer and records it: both reads,
    /// then the `Compare` marker.
    pub fn pre_compare(&mut self, left_index: usize, right_index: usize) -> (order: Ordering)
        requires
            left_index < old(self).work().len(),
            right_index < old(self).work().len(),
        ensures
            match order {
                Ordering::Less => old(self).peek(left_index) < old(self).peek(right_index),
                Ordering::Equal => old(self).peek(left_index) == old(self).peek(right_index),
                Ordering::Greater => old(self).peek(left_index) > old(self).peek(right_index),
            },
            final(self).recorded_after(
                old(self),
                compare_group(left_index, right_index),
                old(self).work(),
            ),
            final(self).grown_from(old(self), 0, 1),
            forall|origin: Sorting| #[trigger]
                old(self).advances(&origin) ==> final(self).advances(&origin),
    {
        let left = self.pre_read(left_index);
        let right = self.pre_read(right_index);
        let ghost seen = *self;

        self.operations.push(Operation::Compare);
        proof {
            let group = compare_group(left_index, right_index);
            assert(self.log() =~= old(self).log() + group);
            assert(self.log() =~= seen.log() + seq![Operation::Compare]);
            let last = self.log().len() - 1;
            assert(self.log()[last - 2] == group[0]);
            assert(self.log()[last - 1] == group[1]);
            assert(self.log()[last] == group[2]);
            assert(paired_at(self.log(), last));
            Self::lemma_one_more(seen, *self, Operation::Compare, true);
            lemma_push_quiet(self.visible().values, seen.log(), Operation::Compare);
        }
        if left < right {
            Ordering::Less
        } else if left == right {
            Ordering::Equal
        } else {
            Ordering::Greater
        }
    }

    /// Whether the left cell holds more than the right one; recorded as a
    /// comparison.
    pub fn pre_greater(&mut self, left_index: usize, right_index: usize) -> (greater: bool)
        requires
            left_index < old(self).work().len(),
            right_index < old(self).work().len(),
        ensures
            greater == (old(self).peek(left_index) > old(self).peek(right_index)),
            final(self).recorded_after(
                old(self),
                compare_group(left_index, right_index),
                old(self).work(),
            ),
            final(self).grown_from(old(self), 0, 1),
            forall|origin: Sorting| #[trigger]
                old(self).advances(&origin) ==> final(self).advances(&origin),
    {
        match self.pre_compare(left_index, right_index) {
            Ordering::Greater => true,
            _ => false,
        }
    }

    /// Whether the left cell holds less than the right one; recorded as a
    /// comparison.
    pub fn pre_less(&mut self, left_index: usize, right_index: usize) -> (less: bool)
        requires
            left_index < old(self).work().len(),
            right_index < old(self).work().len(),
        ensures
            less == (old(self).peek(left_index) < old(self).peek(right_index)),
            final(self).recorded_after(
                old(self),
                compare_group(left_index, right_index),
                old(self).work(),
            ),
            final(self).grown_from(old(self), 0, 1),
            forall|origin: Sorting| #[trigger]
                old(self).advances(&origin) ==> final(self).advances(&origin),
    {
        match self.pre_compare(left_index, right_index) {
            Ordering::Less => true,
            _ => false,
        }
    }

    /// Whether both cells hold the same value; recorded as a comparison.
    pub fn pre_equal(&mut self, left_index: usize, right_index: usize) -> (equal: bool)
        requires
            left_index < old(self).work().len(),
            right_index < old(self).work().len(),
        ensures
            equal == (old(self).peek(left_index) == old(self).peek(right_index)),
            final(self).recorded_after(
                old(self),
                compare_group(left_index, right_index),
                old(self).work(),
            ),
            final(self).grown_from(old(self), 0, 1),
            forall|origin: Sorting| #[trigger]
                old(self).advances(&origin) ==> final(self).advances(&origin),
    {
        match self.pre_compare(left_index, right_index) {
            Ordering::Equal => true,
            _ => false,
        }
    }
}

} // verus!
