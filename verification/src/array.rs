use vstd::prelude::*;
use crate::operation::{Operation, apply_to, replay, reads_in, writes_in, compares_in, swaps_in};

verus! {

/// What an [`Array`] stands for: its values and its four counters.
pub struct ArrayState {
    pub values: Seq<u16>,
    pub reads: nat,
    pub writes: nat,
    pub compares: nat,
    pub swaps: nat,
}

impl ArrayState {
    /// The state after one operation: its kind's counter goes up by one, and
    /// a write stores its value.
    pub open spec fn step(self, op: Operation) -> ArrayState {
        match op {
            Operation::Read(_) => ArrayState { reads: self.reads + 1, ..self },
            Operation::Write(_, _) => ArrayState {
                values: apply_to(self.values, op),
                writes: self.writes + 1,
                ..self
            },
            Operation::Compare => ArrayState { compares: self.compares + 1, ..self },
            Operation::Swap => ArrayState { swaps: self.swaps + 1, ..self },
        }
    }

    /// The state after a sequence of operations, first one first.
    pub open spec fn run(self, ops: Seq<Operation>) -> ArrayState
        decreases ops.len(),
    {
        if ops.len() == 0 {
            self
        } else {
            self.run(ops.drop_last()).step(ops.last())
        }
    }

    /// The state with all four counters back at zero.
    pub open spec fn cleared(self) -> ArrayState {
        ArrayState { values: self.values, reads: 0, writes: 0, compares: 0, swaps: 0 }
    }

    /// The sum of the four counters.
    pub open spec fn total(self) -> nat {
        self.reads + self.writes + self.compares + self.swaps
    }
}

/// Running operations replays them on the values and adds, to each counter,
/// the number of operations of its kind; the counters together grow by the
/// number of operations.
pub proof fn lemma_run_counts(state: ArrayState, ops: Seq<Operation>)
    ensures
        state.run(ops).values == replay(state.values, ops),
        state.run(ops).reads == state.reads + reads_in(ops),
        state.run(ops).writes == state.writes + writes_in(ops),
        state.run(ops).compares == state.compares + compares_in(ops),
        state.run(ops).swaps == state.swaps + swaps_in(ops),
        state.run(ops).total() == state.total() + ops.len(),
    decreases ops.len(),
{
    if ops.len() > 0 {
        lemma_run_counts(state, ops.drop_last());
    }
}

/// Running a sequence with one more operation at its end is running the
/// sequence and then taking one step.
pub proof fn lemma_run_push(state: ArrayState, ops: Seq<Operation>, op: Operation)
    ensures
        state.run(ops.push(op)) == state.run(ops).step(op),
{
    assert(ops.push(op).drop_last() =~= ops);
}

/// The array that the caller sees, with its access counters.
///
/// Only [`Array::apply`] changes the values.
pub struct Array {
    values: Vec<u16>,
    reads: usize,
    writes: usize,
    compares: usize,
    swaps: usize,
}

/// The values `1, 2, ..., size`.
pub open spec fn ascending(size: nat) -> Seq<u16> {
    Seq::new(size, |i: int| (i + 1) as u16)
}

/// The values `size, size - 1, ..., 1`.
pub open spec fn descending(size: nat) -> Seq<u16> {
    Seq::new(size, |i: int| (size - i) as u16)
}

impl View for Array {
    type V = ArrayState;

    closed spec fn view(&self) -> ArrayState {
        ArrayState {
            values: self.values@,
            reads: self.reads as nat,
            writes: self.writes as nat,
            compares: self.compares as nat,
            swaps: self.swaps as nat,
        }
    }
}

impl Array {
    /// Whether `operation` can be applied: a write must hit a cell of the
    /// array, and the counter of the operation's kind must have room.
    pub open spec fn accepts(&self, operation: Operation) -> bool {
        match operation {
            Operation::Read(_) => self@.reads < usize::MAX,
            Operation::Write(index, _) => index < self@.values.len() && self@.writes < usize::MAX,
            Operation::Compare => self@.compares < usize::MAX,
            Operation::Swap => self@.swaps < usize::MAX,
        }
    }

    /// An array holding `1, 2, ..., size`, with all counters at zero.
    pub fn new(size: usize) -> (array: Self)
        requires
            size <= u16::MAX,
        ensures
            array@.values == ascending(size as nat),
            array@ == array@.cleared(),
    {
        let mut values: Vec<u16> = Vec::with_capacity(size);
        let mut i: u16 = 0;
        while (i as usize) < size
            invariant
                i <= size <= u16::MAX,
                values@ == ascending(i as nat),
            decreases size - i,
        {
            i = i + 1;
            values.push(i);
            assert(values@ =~= ascending(i as nat));
        }
        Self { values, reads: 0, writes: 0, compares: 0, swaps: 0 }
    }

    pub fn get_values(&self) -> (values: &[u16])
        ensures
            values@ == self@.values,
    {
        self.values.as_slice()
    }

    pub fn get_reads(&self) -> (reads: usize)
        ensures
            reads == self@.reads,
    {
        self.reads
    }

    pub fn get_writes(&self) -> (writes: usize)
        ensures
            writes == self@.writes,
    {
        self.writes
    }

    pub fn get_compares(&self) -> (compares: usize)
        ensures
            compares == self@.compares,
    {
        self.compares
    }

    pub fn get_swaps(&self) -> (swaps: usize)
        ensures
            swaps == self@.swaps,
    {
        self.swaps
    }

    /// Sets the four counters to zero and keeps the values.
    pub fn reset_stats(&mut self)
        ensures
            final(self)@ == old(self)@.cleared(),
    {
        self.reads = 0;
        self.writes = 0;
        self.compares = 0;
        self.swaps = 0;
    }

    /// Applies one operation: counts it, and stores the value of a write.
    pub fn apply(&mut self, operation: &Operation)
        requires
            old(self).accepts(*operation),
        ensures
            final(self)@ == old(self)@.step(*operation),
    {
        match *operation {
            Operation::Read(_) => {
                self.reads += 1;
            },
            Operation::Write(index, value) => {
                self.writes += 1;
                self.values[index] = value;
            },
            Operation::Compare => {
                self.compares += 1;
            },
            Operation::Swap => {
                self.swaps += 1;
            },
        }
    }
}

} // verus!
