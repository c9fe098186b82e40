use vstd::prelude::*;

verus! {

/// No value is followed, anywhere later, by a smaller one.
pub open spec fn is_sorted(values: Seq<u16>) -> bool {
    forall|i: int, j: int| 0 <= i <= j < values.len() ==> values[i] <= values[j]
}

/// The sequence with the values of cells `i` and `j` exchanged.
pub open spec fn exchanged(values: Seq<u16>, i: int, j: int) -> Seq<u16> {
    values.update(i, values[j]).update(j, values[i])
}

/// Exchanging two cells keeps the multiset of values.
pub proof fn lemma_exchange_keeps_values(values: Seq<u16>, i: int, j: int)
    requires
        0 <= i < values.len(),
        0 <= j < values.len(),
    ensures
        exchanged(values, i, j).to_multiset() == values.to_multiset(),
{
    broadcast use vstd::seq_lib::to_multiset_update;
    broadcast use vstd::multiset::group_multiset_axioms;
    broadcast use vstd::seq_lib::group_to_multiset_ensures;

    let once = values.update(i, values[j]);
    assert(once.to_multiset() == values.to_multiset().insert(values[j]).remove(values[i]));
    assert(exchanged(values, i, j).to_multiset() == once.to_multiset().insert(values[i]).remove(
        once[j],
    ));
    assert(values.to_multiset().count(values[i]) > 0);
    assert(values.to_multiset().count(values[j]) > 0);
    assert(exchanged(values, i, j).to_multiset() =~= values.to_multiset());
}

/// Every cell of `lo..hi` holds at most `bound`.
pub open spec fn capped(values: Seq<u16>, lo: int, hi: int, bound: u16) -> bool {
    forall|k: int| lo <= k < hi ==> values[k] <= bound
}

/// Every cell of `lo..hi` holds at least `bound`.
pub open spec fn floored(values: Seq<u16>, lo: int, hi: int, bound: u16) -> bool {
    forall|k: int| lo <= k < hi ==> values[k] >= bound
}

/// Node `p` of the binary heap laid out in the first `n` cells holds at
/// least as much as each of its children.
pub open spec fn dominates(values: Seq<u16>, n: int, p: int) -> bool {
    &&& 2 * p + 1 < n ==> values[p] >= values[2 * p + 1]
    &&& 2 * p + 2 < n ==> values[p] >= values[2 * p + 2]
}

/// Every node from `lo` on, of the heap in the first `n` cells, dominates
/// its children.
pub open spec fn heap_from(values: Seq<u16>, n: int, lo: int) -> bool {
    forall|p: int| lo <= p < n ==> #[trigger] dominates(values, n, p)
}

/// Node `i` is the one node from `lo` on that may not dominate, and its
/// parent, where it lies at or after `lo`, holds at least as much as the
/// children of `i`.
pub open spec fn heap_but(values: Seq<u16>, n: int, lo: int, i: int) -> bool {
    &&& forall|p: int| lo <= p < n && p != i ==> #[trigger] dominates(values, n, p)
    &&& i > 0 && lo <= (i - 1) / 2 ==> {
        &&& 2 * i + 1 < n ==> values[(i - 1) / 2] >= values[2 * i + 1]
        &&& 2 * i + 2 < n ==> values[(i - 1) / 2] >= values[2 * i + 2]
    }
}

/// Exchanging node `i` with its largest child, where that child holds more,
/// moves the one node that may not dominate down to that child, and breaks no
/// bound on the first `n` cells.
pub proof fn lemma_sink(values: Seq<u16>, n: int, lo: int, i: int, largest: int)
    requires
        0 <= lo <= i < largest < n <= values.len(),
        largest == 2 * i + 1 || largest == 2 * i + 2,
        heap_but(values, n, lo, i),
        values[largest] >= values[i],
        2 * i + 1 < n ==> values[largest] >= values[2 * i + 1],
        2 * i + 2 < n ==> values[largest] >= values[2 * i + 2],
    ensures
        heap_but(exchanged(values, i, largest), n, lo, largest),
        forall|bound: u16| #[trigger]
            capped(values, 0, n, bound) ==> capped(exchanged(values, i, largest), 0, n, bound),
{
    let after = exchanged(values, i, largest);
    assert forall|p: int| lo <= p < n && p != largest implies #[trigger] dominates(after, n, p) by {
        if p != i {
            assert(dominates(values, n, p));
        }
    }
    assert(dominates(values, n, largest));
    assert((largest - 1) / 2 == i);
    assert forall|bound: u16| #[trigger] capped(values, 0, n, bound) implies capped(
        after,
        0,
        n,
        bound,
    ) by {
        assert forall|k: int| 0 <= k < n implies after[k] <= bound by {
            if k == i {
                assert(values[largest] <= bound);
            } else if k == largest {
                assert(values[i] <= bound);
            } else {
                assert(values[k] <= bound);
            }
        }
    }
}

/// Where the one node that may not dominate does dominate, all do.
pub proof fn lemma_sunk(values: Seq<u16>, n: int, lo: int, i: int)
    requires
        heap_but(values, n, lo, i),
        dominates(values, n, i),
    ensures
        heap_from(values, n, lo),
{
    assert forall|p: int| lo <= p < n implies #[trigger] dominates(values, n, p) by {
        if p != i {
            assert(dominates(values, n, p));
        }
    }
}

/// The root of a heap holds its largest value.
pub proof fn lemma_root_is_largest(values: Seq<u16>, n: int, k: int)
    requires
        heap_from(values, n, 0),
        0 <= k < n <= values.len(),
    ensures
        values[0] >= values[k],
    decreases k,
{
    if k > 0 {
        let parent = (k - 1) / 2;
        assert(dominates(values, n, parent));
        lemma_root_is_largest(values, n, parent);
    }
}

/// How many of the first `hi` cells hold more than `v`.
pub open spec fn over(values: Seq<u16>, hi: int, v: u16) -> nat
    decreases hi,
{
    if hi <= 0 {
        0
    } else {
        over(values, hi - 1, v) + if values[hi - 1] > v { 1nat } else { 0nat }
    }
}

/// How many pairs of cells, both among the first `hi`, stand in the wrong
/// order: the earlier cell holds more than the later one.
pub open spec fn inversions_upto(values: Seq<u16>, hi: int) -> nat
    decreases hi,
{
    if hi <= 0 {
        0
    } else {
        inversions_upto(values, hi - 1) + over(values, hi - 1, values[hi - 1])
    }
}

/// How many pairs of cells stand in the wrong order.
pub open spec fn inversions(values: Seq<u16>) -> nat {
    inversions_upto(values, values.len() as int)
}

/// How many pairs can be made of `n` things: `n * (n - 1) / 2`.
pub open spec fn pairs(n: nat) -> nat
    decreases n,
{
    if n == 0 {
        0
    } else {
        pairs((n - 1) as nat) + (n - 1) as nat
    }
}

pub proof fn lemma_pairs(n: nat)
    ensures
        2 * pairs(n) == n * (n - 1),
    decreases n,
{
    if n == 0 {
        assert(n * (n - 1) == 0) by (nonlinear_arith)
            requires
                n == 0,
        ;
    } else {
        let m: int = n - 1;
        let p: int = pairs(m as nat) as int;
        lemma_pairs(m as nat);
        assert(2 * p == m * (m - 1));
        assert(pairs(n) == p + m);
        assert(2 * (p + m) == n * (n - 1)) by (nonlinear_arith)
            requires
                2 * p == m * (m - 1),
                n == m + 1,
        ;
    }
}

proof fn lemma_over_agree(a: Seq<u16>, b: Seq<u16>, hi: int, v: u16)
    requires
        hi <= a.len(),
        hi <= b.len(),
        forall|k: int| 0 <= k < hi ==> a[k] == b[k],
    ensures
        over(a, hi, v) == over(b, hi, v),
    decreases hi,
{
    if hi > 0 {
        lemma_over_agree(a, b, hi - 1, v);
    }
}

proof fn lemma_over_update(values: Seq<u16>, hi: int, k: int, x: u16, v: u16)
    requires
        0 <= k < values.len(),
        hi <= values.len(),
    ensures
        over(values.update(k, x), hi, v) == over(values, hi, v) + if k < hi {
            (if x > v { 1int } else { 0int }) - (if values[k] > v { 1int } else { 0int })
        } else {
            0int
        },
    decreases hi,
{
    if hi > 0 {
        lemma_over_update(values, hi - 1, k, x, v);
    }
}

proof fn lemma_inversions_agree(a: Seq<u16>, b: Seq<u16>, hi: int)
    requires
        hi <= a.len(),
        hi <= b.len(),
        forall|k: int| 0 <= k < hi ==> a[k] == b[k],
    ensures
        inversions_upto(a, hi) == inversions_upto(b, hi),
    decreases hi,
{
    if hi > 0 {
        lemma_inversions_agree(a, b, hi - 1);
        lemma_over_agree(a, b, hi - 1, a[hi - 1]);
    }
}

proof fn lemma_mend_upto(values: Seq<u16>, i: int, hi: int)
    requires
        0 <= i,
        i + 2 <= hi <= values.len(),
        values[i] > values[i + 1],
    ensures
        inversions_upto(exchanged(values, i, i + 1), hi) + 1 == inversions_upto(values, hi),
    decreases hi,
{
    let after = exchanged(values, i, i + 1);
    if hi == i + 2 {
        lemma_inversions_agree(values, after, i);
        lemma_over_agree(values, after, i, values[i]);
        lemma_over_agree(values, after, i, values[i + 1]);
        assert(inversions_upto(after, i + 2) == inversions_upto(after, i + 1) + over(
            after,
            i + 1,
            after[i + 1],
        ));
        assert(inversions_upto(after, i + 1) == inversions_upto(after, i) + over(
            after,
            i,
            after[i],
        ));
        assert(over(after, i + 1, values[i]) == over(after, i, values[i]) + if after[i]
            > values[i] { 1nat } else { 0nat });
        assert(inversions_upto(values, i + 2) == inversions_upto(values, i + 1) + over(
            values,
            i + 1,
            values[i + 1],
        ));
        assert(inversions_upto(values, i + 1) == inversions_upto(values, i) + over(
            values,
            i,
            values[i],
        ));
        assert(over(values, i + 1, values[i + 1]) == over(values, i, values[i + 1])
            + if values[i] > values[i + 1] { 1nat } else { 0nat });
    } else {
        lemma_mend_upto(values, i, hi - 1);
        let first = values.update(i, values[i + 1]);
        lemma_over_update(values, hi - 1, i, values[i + 1], values[hi - 1]);
        lemma_over_update(first, hi - 1, i + 1, values[i], values[hi - 1]);
    }
}

/// Exchanging two neighbours that stand in the wrong order leaves exactly
/// one pair fewer in the wrong order.
pub proof fn lemma_neighbours_mend_one(values: Seq<u16>, i: int)
    requires
        0 <= i,
        i + 1 < values.len(),
        values[i] > values[i + 1],
    ensures
        inversions(exchanged(values, i, i + 1)) + 1 == inversions(values),
{
    lemma_mend_upto(values, i, values.len() as int);
}

proof fn lemma_sorted_upto(values: Seq<u16>, hi: int, top: int)
    requires
        is_sorted(values),
        0 <= hi <= top < values.len(),
    ensures
        over(values, hi, values[top]) == 0,
    decreases hi,
{
    if hi > 0 {
        lemma_sorted_upto(values, hi - 1, top);
    }
}

/// Sorted values have no pair in the wrong order.
pub proof fn lemma_sorted_has_none(values: Seq<u16>, hi: int)
    requires
        is_sorted(values),
        0 <= hi <= values.len(),
    ensures
        inversions_upto(values, hi) == 0,
    decreases hi,
{
    if hi > 0 {
        lemma_sorted_has_none(values, hi - 1);
        lemma_sorted_upto(values, hi - 1, hi - 1);
    }
}

/// Neighbours in order make the whole sequence sorted.
pub proof fn lemma_adjacent_sorted(values: Seq<u16>)
    requires
        forall|k: int| 0 <= k < values.len() - 1 ==> values[k] <= #[trigger] values[k + 1],
    ensures
        is_sorted(values),
{
    assert forall|i: int, j: int| 0 <= i <= j < values.len() implies values[i] <= values[j] by {
        lemma_chain(values, i, j);
    }
}

proof fn lemma_chain(values: Seq<u16>, i: int, j: int)
    requires
        forall|k: int| 0 <= k < values.len() - 1 ==> values[k] <= #[trigger] values[k + 1],
        0 <= i <= j < values.len(),
    ensures
        values[i] <= values[j],
    decreases j - i,
{
    if i < j {
        lemma_chain(values, i, j - 1);
        assert(values[j - 1] <= values[j - 1 + 1]);
    }
}

/// The sum of each value times its index. It grows whenever a larger value
/// moves behind a smaller one, which bounds the number of such exchanges.
pub open spec fn weight(values: Seq<u16>) -> int
    decreases values.len(),
{
    if values.len() == 0 {
        0
    } else {
        weight(values.drop_last()) + (values.len() - 1) * values.last()
    }
}

/// The weight of `size` values can be no more than this.
pub open spec fn weight_limit(size: nat) -> int {
    (size * size * 65535) as int
}

pub proof fn lemma_weight_bound(values: Seq<u16>)
    ensures
        0 <= weight(values) <= weight_limit(values.len()),
    decreases values.len(),
{
    if values.len() > 0 {
        lemma_weight_bound(values.drop_last());
        let m: int = values.len() - 1;
        let n: int = values.len() as int;
        let last: int = values.last() as int;
        let rest = weight(values.drop_last());
        assert(0 <= m * last && rest + m * last <= n * n * 65535) by (nonlinear_arith)
            requires
                0 <= rest <= m * m * 65535,
                0 <= last <= 65535,
                m >= 0,
                n == m + 1,
        ;
    }
}

pub proof fn lemma_weight_update(values: Seq<u16>, k: int, value: u16)
    requires
        0 <= k < values.len(),
    ensures
        weight(values.update(k, value)) == weight(values) + k * value - k * values[k],
    decreases values.len(),
{
    let changed = values.update(k, value);
    if k == values.len() - 1 {
        assert(changed.drop_last() =~= values.drop_last());
    } else {
        lemma_weight_update(values.drop_last(), k, value);
        assert(changed.drop_last() =~= values.drop_last().update(k, value));
    }
}

/// Exchanging a larger value with a smaller one behind it raises the weight.
pub proof fn lemma_exchange_gains(values: Seq<u16>, i: int, j: int)
    requires
        0 <= i < j < values.len(),
        values[i] > values[j],
    ensures
        weight(exchanged(values, i, j)) > weight(values),
{
    let first = values.update(i, values[j]);
    lemma_weight_update(values, i, values[j]);
    lemma_weight_update(first, j, values[i]);
    let a: int = values[i] as int;
    let b: int = values[j] as int;
    assert(i * b - i * a + j * a - j * b > 0) by (nonlinear_arith)
        requires
            0 <= i < j,
            a > b,
    ;
}

} // verus!
