use vstd::prelude::*;
use crate::order::exchanged;

verus! {

/// How many of the cells `lo..hi` hold less than `v`.
pub open spec fn below(values: Seq<u16>, lo: int, hi: int, v: u16) -> nat
    decreases hi - lo,
{
    if hi <= lo {
        0
    } else {
        below(values, lo, hi - 1, v) + if values[hi - 1] < v { 1nat } else { 0nat }
    }
}

/// How many of the cells `lo..hi` hold exactly `v`.
pub open spec fn same(values: Seq<u16>, lo: int, hi: int, v: u16) -> nat
    decreases hi - lo,
{
    if hi <= lo {
        0
    } else {
        same(values, lo, hi - 1, v) + if values[hi - 1] == v { 1nat } else { 0nat }
    }
}

/// Cell `q` holds a value that belongs there once `lo..hi` is sorted: as
/// many cells of the range hold less as lie before `q`, give or take the
/// cells that hold the same value.
pub open spec fn at_home(values: Seq<u16>, lo: int, hi: int, q: int) -> bool {
    let v = values[q];
    lo + below(values, lo, hi, v) <= q < lo + below(values, lo, hi, v) + same(values, lo, hi, v)
}

/// How many of the cells after `lo` and before `upto` are not at home in
/// `lo..hi`.
pub open spec fn astray(values: Seq<u16>, lo: int, hi: int, upto: int) -> nat
    decreases upto - lo,
{
    if upto <= lo + 1 {
        0
    } else {
        astray(values, lo, hi, upto - 1) + if at_home(values, lo, hi, upto - 1) {
            0nat
        } else {
            1nat
        }
    }
}

pub proof fn lemma_counts_bounded(values: Seq<u16>, lo: int, hi: int, v: u16)
    requires
        lo <= hi,
    ensures
        below(values, lo, hi, v) + same(values, lo, hi, v) <= hi - lo,
    decreases hi - lo,
{
    if lo < hi {
        lemma_counts_bounded(values, lo, hi - 1, v);
    }
}

/// The counts over `lo..hi` are the counts over `lo + 1..hi` plus what cell
/// `lo` adds.
pub proof fn lemma_counts_front(values: Seq<u16>, lo: int, hi: int, v: u16)
    requires
        lo < hi,
    ensures
        below(values, lo, hi, v) == below(values, lo + 1, hi, v) + if values[lo] < v {
            1nat
        } else {
            0nat
        },
        same(values, lo, hi, v) == same(values, lo + 1, hi, v) + if values[lo] == v {
            1nat
        } else {
            0nat
        },
    decreases hi - lo,
{
    if lo + 1 < hi {
        lemma_counts_front(values, lo, hi - 1, v);
    } else {
        assert(below(values, lo, hi - 1, v) == 0);
        assert(same(values, lo, hi - 1, v) == 0);
        assert(below(values, lo + 1, hi, v) == 0);
        assert(same(values, lo + 1, hi, v) == 0);
    }
}

pub proof fn lemma_counts_update(values: Seq<u16>, lo: int, hi: int, k: int, x: u16, v: u16)
    requires
        0 <= k < values.len(),
        0 <= lo,
        hi <= values.len(),
    ensures
        below(values.update(k, x), lo, hi, v) == below(values, lo, hi, v) + if lo <= k < hi {
            (if x < v { 1int } else { 0int }) - (if values[k] < v { 1int } else { 0int })
        } else {
            0int
        },
        same(values.update(k, x), lo, hi, v) == same(values, lo, hi, v) + if lo <= k < hi {
            (if x == v { 1int } else { 0int }) - (if values[k] == v { 1int } else { 0int })
        } else {
            0int
        },
    decreases hi - lo,
{
    if lo < hi {
        lemma_counts_update(values, lo, hi - 1, k, x, v);
    }
}

/// Exchanging two cells of a range changes no count over the range.
pub proof fn lemma_counts_exchange(values: Seq<u16>, lo: int, hi: int, i: int, j: int, v: u16)
    requires
        0 <= lo <= i < hi <= values.len(),
        lo <= j < hi,
    ensures
        below(exchanged(values, i, j), lo, hi, v) == below(values, lo, hi, v),
        same(exchanged(values, i, j), lo, hi, v) == same(values, lo, hi, v),
{
    let first = values.update(i, values[j]);
    lemma_counts_update(values, lo, hi, i, values[j], v);
    lemma_counts_update(first, lo, hi, j, values[i], v);
}

/// Every cell that holds less than `v`, or `v` itself, holds less than any
/// larger `w`.
pub proof fn lemma_below_grows(values: Seq<u16>, lo: int, hi: int, v: u16, w: u16)
    requires
        v < w,
        lo <= hi,
    ensures
        below(values, lo, hi, w) >= below(values, lo, hi, v) + same(values, lo, hi, v),
    decreases hi - lo,
{
    if lo < hi {
        lemma_below_grows(values, lo, hi - 1, v, w);
    }
}

/// A run of cells that all hold `v` counts in full.
pub proof fn lemma_same_run(values: Seq<u16>, lo: int, hi: int, from: int, to: int, v: u16)
    requires
        lo <= from <= to <= hi,
        forall|k: int| from <= k < to ==> values[k] == v,
    ensures
        same(values, lo, hi, v) >= to - from,
    decreases hi - lo,
{
    if lo < hi {
        if hi > to {
            lemma_same_run(values, lo, hi - 1, from, to, v);
        } else if from < to {
            lemma_same_run(values, lo, hi - 1, from, to - 1, v);
        }
    }
}

/// Where no cell holds less than `v`, every cell holds at least `v`.
pub proof fn lemma_none_below(values: Seq<u16>, lo: int, hi: int, v: u16)
    requires
        lo <= hi,
        below(values, lo, hi, v) == 0,
    ensures
        forall|k: int| lo <= k < hi ==> values[k] >= v,
    decreases hi - lo,
{
    if lo < hi {
        lemma_none_below(values, lo, hi - 1, v);
    }
}

proof fn lemma_astray_exchange(values: Seq<u16>, lo: int, hi: int, p: int, upto: int)
    requires
        0 <= lo < p < hi,
        hi == values.len(),
        lo < upto <= hi,
        !at_home(values, lo, hi, p),
        at_home(exchanged(values, lo, p), lo, hi, p),
    ensures
        astray(exchanged(values, lo, p), lo, hi, upto) == astray(values, lo, hi, upto) - if p
            < upto {
            1int
        } else {
            0int
        },
    decreases upto - lo,
{
    if upto > lo + 1 {
        lemma_astray_exchange(values, lo, hi, p, upto - 1);
        let q = upto - 1;
        if q != p {
            lemma_counts_exchange(values, lo, hi, lo, p, values[q]);
        }
    }
}

/// The run of cells that hold the value of cell `lo`, starting where that
/// value belongs, ends before the range does.
pub proof fn lemma_run_fits(values: Seq<u16>, lo: int, hi: int, pos: int)
    requires
        0 <= lo < hi,
        hi == values.len(),
        below(values, lo + 1, hi, values[lo]) >= 1,
        lo + below(values, lo + 1, hi, values[lo]) <= pos < hi,
        forall|k: int|
            lo + below(values, lo + 1, hi, values[lo]) <= k <= pos ==> values[k] == values[lo],
    ensures
        pos + 1 < hi,
{
    let x = values[lo];
    let home = lo + below(values, lo + 1, hi, x);
    lemma_same_run(values, lo + 1, hi, home, pos + 1, x);
    lemma_counts_bounded(values, lo + 1, hi, x);
}

/// One step of a cycle. The value of cell `lo` goes to cell `pos`, the
/// first cell at or after its place that does not hold the same value, and
/// what was there comes to cell `lo`. One more cell after `lo` is then at
/// home.
pub proof fn lemma_place(values: Seq<u16>, lo: int, hi: int, pos: int)
    requires
        0 <= lo < pos < hi,
        hi == values.len(),
        below(values, lo + 1, hi, values[lo]) >= 1,
        lo + below(values, lo + 1, hi, values[lo]) <= pos,
        forall|k: int|
            lo + below(values, lo + 1, hi, values[lo]) <= k < pos ==> values[k] == values[lo],
        values[pos] != values[lo],
    ensures
        astray(exchanged(values, lo, pos), lo, hi, hi) < astray(values, lo, hi, hi),
{
    let x = values[lo];
    let y = values[pos];
    let home = lo + below(values, lo + 1, hi, x);
    let after = exchanged(values, lo, pos);
    lemma_counts_front(values, lo, hi, x);
    lemma_same_run(values, lo + 1, hi, home, pos, x);
    if y < x {
        lemma_below_grows(values, lo, hi, y, x);
    } else {
        lemma_below_grows(values, lo, hi, x, y);
    }
    assert(!at_home(values, lo, hi, pos));
    lemma_counts_exchange(values, lo, hi, lo, pos, x);
    assert(after[pos] == x);
    assert(at_home(after, lo, hi, pos));
    lemma_astray_exchange(values, lo, hi, pos, hi);
}

} // verus!
