use crate::scalar::Scalar;
use vstd::prelude::*;

verus! {

/// Whether the value at place `a` comes before the value at place `b`: by
/// rank, ascending or descending, and by place where the ranks are alike.
pub open spec fn precedes<S: Scalar>(values: Seq<S>, descending: bool, a: int, b: int) -> bool {
    if values[a].rank() == values[b].rank() {
        a < b
    } else if descending {
        values[a].rank() > values[b].rank()
    } else {
        values[a].rank() < values[b].rank()
    }
}

/// Whether `part` lists the places from `lo` up to `hi`, each once, so that
/// each value comes before the next.
pub open spec fn orders_places<S: Scalar>(
    part: Seq<usize>,
    values: Seq<S>,
    descending: bool,
    lo: int,
    hi: int,
) -> bool {
    &&& part.len() == hi - lo
    &&& forall|i: int| 0 <= i < part.len() ==> lo <= #[trigger] part[i] < hi
    &&& forall|i: int, j: int|
        0 <= i < j < part.len() ==> precedes(
            values,
            descending,
            #[trigger] part[i] as int,
            #[trigger] part[j] as int,
        )
    &&& forall|p: usize| lo <= p < hi ==> #[trigger] part.contains(p)
}

/// Whether `order` lists every place of `values` once, in the order of a
/// stable sort.
pub open spec fn is_ordering<S: Scalar>(order: Seq<usize>, values: Seq<S>, descending: bool) -> bool {
    orders_places(order, values, descending, 0, values.len() as int)
}

/// The places of `values` in the order of a stable sort of the values.
pub open spec fn ordering<S: Scalar>(values: Seq<S>, descending: bool) -> Seq<usize> {
    choose|order: Seq<usize>| is_ordering(order, values, descending)
}

/// Two orderings of the same values agree up to any place.
proof fn lemma_orderings_agree<S: Scalar>(
    first: Seq<usize>,
    second: Seq<usize>,
    values: Seq<S>,
    descending: bool,
    n: int,
)
    requires
        is_ordering(first, values, descending),
        is_ordering(second, values, descending),
        0 <= n <= values.len(),
    ensures
        forall|i: int| 0 <= i < n ==> first[i] == second[i],
    decreases n,
{
    if n > 0 {
        lemma_orderings_agree(first, second, values, descending, n - 1);
        let i = n - 1;
        let p = first[i];
        let q = second[i];
        assert(second.contains(p));
        let t = choose|t: int| 0 <= t < second.len() && second[t] == p;
        assert(first.contains(q));
        let s = choose|s: int| 0 <= s < first.len() && first[s] == q;
        if t < i {
            assert(first[t] == second[t]);
            assert(precedes(values, descending, first[t] as int, first[i] as int));
        }
        if s < i {
            assert(first[s] == second[s]);
            assert(precedes(values, descending, second[s] as int, second[i] as int));
        }
        if t > i {
            assert(precedes(values, descending, second[i] as int, second[t] as int));
            if s > i {
                assert(precedes(values, descending, first[i] as int, first[s] as int));
            }
        }
    }
}

/// There is only one ordering of given values.
pub proof fn lemma_ordering_unique<S: Scalar>(order: Seq<usize>, values: Seq<S>, descending: bool)
    requires
        is_ordering(order, values, descending),
    ensures
        ordering(values, descending) == order,
{
    let chosen = ordering(values, descending);
    assert(is_ordering(chosen, values, descending));
    lemma_orderings_agree(chosen, order, values, descending, values.len() as int);
    assert(chosen =~= order);
}

/// Where the last place goes among the earlier places in their order: the
/// places before it come before the last place, and the place there, if
/// any, comes after it.
proof fn lemma_place_for_last<S: Scalar>(
    earlier: Seq<usize>,
    values: Seq<S>,
    descending: bool,
    from: int,
) -> (k: int)
    requires
        values.len() > 0,
        is_ordering(earlier, values.drop_last(), descending),
        0 <= from <= earlier.len(),
        forall|t: int|
            0 <= t < from ==> precedes(
                values,
                descending,
                #[trigger] earlier[t] as int,
                values.len() - 1,
            ),
    ensures
        from <= k <= earlier.len(),
        forall|t: int|
            0 <= t < k ==> precedes(
                values,
                descending,
                #[trigger] earlier[t] as int,
                values.len() - 1,
            ),
        k < earlier.len() ==> precedes(values, descending, values.len() - 1, earlier[k] as int),
    decreases earlier.len() - from,
{
    let last = values.len() - 1;
    if from == earlier.len() {
        from
    } else if precedes(values, descending, last, earlier[from] as int) {
        from
    } else {
        assert(earlier[from] < last);
        lemma_place_for_last(earlier, values, descending, from + 1)
    }
}

/// Every list of values whose places can be counted has an ordering.
pub proof fn lemma_ordering_exists<S: Scalar>(values: Seq<S>, descending: bool)
    requires
        values.len() <= usize::MAX,
    ensures
        is_ordering(ordering(values, descending), values, descending),
    decreases values.len(),
{
    if values.len() == 0 {
        let order = Seq::<usize>::empty();
        assert(is_ordering(order, values, descending));
    } else {
        let shorter = values.drop_last();
        lemma_ordering_exists(shorter, descending);
        let earlier = ordering(shorter, descending);
        let last = (values.len() - 1) as usize;
        assert forall|a: int, b: int| 0 <= a < shorter.len() && 0 <= b < shorter.len() implies precedes(
            shorter,
            descending,
            a,
            b,
        ) == precedes(values, descending, a, b) by {
            assert(shorter[a] == values[a]);
            assert(shorter[b] == values[b]);
        }
        let k = lemma_place_for_last(earlier, values, descending, 0);
        let order = earlier.subrange(0, k).push(last) + earlier.subrange(k, earlier.len() as int);
        assert(order.len() == values.len());
        assert forall|i: int| 0 <= i < order.len() implies 0 <= #[trigger] order[i]
            < values.len() by {
            if i < k {
                assert(order[i] == earlier[i]);
            } else if i > k {
                assert(order[i] == earlier[i - 1]);
            }
        }
        assert forall|i: int, j: int| 0 <= i < j < order.len() implies precedes(
            values,
            descending,
            #[trigger] order[i] as int,
            #[trigger] order[j] as int,
        ) by {
            if j < k {
                assert(order[i] == earlier[i] && order[j] == earlier[j]);
                assert(precedes(shorter, descending, earlier[i] as int, earlier[j] as int));
            } else if j == k {
                assert(order[i] == earlier[i] && order[j] == last);
            } else if i < k {
                assert(order[i] == earlier[i] && order[j] == earlier[j - 1]);
                assert(precedes(shorter, descending, earlier[i] as int, earlier[j - 1] as int));
            } else if i == k {
                assert(order[i] == last && order[j] == earlier[j - 1]);
                if j - 1 > k {
                    assert(precedes(shorter, descending, earlier[k] as int, earlier[j - 1] as int));
                }
            } else {
                assert(order[i] == earlier[i - 1] && order[j] == earlier[j - 1]);
                assert(precedes(
                    shorter,
                    descending,
                    earlier[i - 1] as int,
                    earlier[j - 1] as int,
                ));
            }
        }
        assert forall|p: usize| 0 <= p < values.len() implies #[trigger] order.contains(p) by {
            if p == last {
                assert(order[k] == p);
            } else {
                assert(earlier.contains(p));
                let t = choose|t: int| 0 <= t < earlier.len() && earlier[t] == p;
                if t < k {
                    assert(order[t] == p);
                } else {
                    assert(order[t + 1] == p);
                }
            }
        }
        assert(is_ordering(order, values, descending));
    }
}

/// Whether the value at the earlier place `a` comes before the value at the
/// later place `b`.
fn comes_first<S: Scalar>(values: &Vec<S>, descending: bool, a: usize, b: usize) -> (r: bool)
    requires
        a < b < values@.len(),
    ensures
        r == precedes(values@, descending, a as int, b as int),
{
    if descending {
        values[b].le(values[a])
    } else {
        values[a].le(values[b])
    }
}

/// The places of two neighbouring ranges, each in order, merged into one
/// order. Of two values of like rank the one from the left range goes first.
fn merge<S: Scalar>(
    values: &Vec<S>,
    descending: bool,
    left: &Vec<usize>,
    right: &Vec<usize>,
    Ghost(lo): Ghost<int>,
    Ghost(mid): Ghost<int>,
    Ghost(hi): Ghost<int>,
) -> (out: Vec<usize>)
    requires
        0 <= lo <= mid <= hi <= values@.len(),
        orders_places(left@, values@, descending, lo, mid),
        orders_places(right@, values@, descending, mid, hi),
    ensures
        orders_places(out@, values@, descending, lo, hi),
{
    let mut out: Vec<usize> = Vec::new();
    let mut i: usize = 0;
    let mut j: usize = 0;
    while i < left.len() || j < right.len()
        invariant
            0 <= lo <= mid <= hi <= values@.len(),
            orders_places(left@, values@, descending, lo, mid),
            orders_places(right@, values@, descending, mid, hi),
            i <= left@.len(),
            j <= right@.len(),
            out@.len() == i + j,
            forall|t: int| 0 <= t < out@.len() ==> lo <= #[trigger] out@[t] < hi,
            forall|s: int, t: int|
                0 <= s < t < out@.len() ==> precedes(
                    values@,
                    descending,
                    #[trigger] out@[s] as int,
                    #[trigger] out@[t] as int,
                ),
            forall|t: int|
                0 <= t < out@.len() && i < left@.len() ==> precedes(
                    values@,
                    descending,
                    #[trigger] out@[t] as int,
                    left@[i as int] as int,
                ),
            forall|t: int|
                0 <= t < out@.len() && j < right@.len() ==> precedes(
                    values@,
                    descending,
                    #[trigger] out@[t] as int,
                    right@[j as int] as int,
                ),
            forall|a: int| 0 <= a < i ==> out@.contains(#[trigger] left@[a]),
            forall|b: int| 0 <= b < j ==> out@.contains(#[trigger] right@[b]),
        decreases left@.len() - i + right@.len() - j,
    {
        let take_left: bool = if i >= left.len() {
            false
        } else if j >= right.len() {
            true
        } else {
            comes_first(values, descending, left[i], right[j])
        };
        let ghost before = out@;
        if take_left {
            let p: usize = left[i];
            out.push(p);
            proof {
                assert(out@[before.len() as int] == p);
                assert forall|a: int| 0 <= a < i + 1 implies out@.contains(#[trigger] left@[a]) by {
                    if a < i {
                        let t = choose|t: int| 0 <= t < before.len() && before[t] == left@[a];
                        assert(out@[t] == left@[a]);
                    }
                }
                assert forall|b: int| 0 <= b < j implies out@.contains(#[trigger] right@[b]) by {
                    let t = choose|t: int| 0 <= t < before.len() && before[t] == right@[b];
                    assert(out@[t] == right@[b]);
                }
                assert forall|t: int| 0 <= t < out@.len() && i + 1 < left@.len() implies precedes(
                    values@,
                    descending,
                    #[trigger] out@[t] as int,
                    left@[i + 1] as int,
                ) by {
                    assert(precedes(
                        values@,
                        descending,
                        left@[i as int] as int,
                        left@[i + 1] as int,
                    ));
                    if t < before.len() {
                        assert(out@[t] == before[t]);
                    }
                }
            }
            i += 1;
        } else {
            let p: usize = right[j];
            out.push(p);
            proof {
                assert(out@[before.len() as int] == p);
                if i < left@.len() {
                    assert(!precedes(
                        values@,
                        descending,
                        left@[i as int] as int,
                        right@[j as int] as int,
                    ));
                }
                assert forall|a: int| 0 <= a < i implies out@.contains(#[trigger] left@[a]) by {
                    let t = choose|t: int| 0 <= t < before.len() && before[t] == left@[a];
                    assert(out@[t] == left@[a]);
                }
                assert forall|b: int| 0 <= b < j + 1 implies out@.contains(#[trigger] right@[b]) by {
                    if b < j {
                        let t = choose|t: int| 0 <= t < before.len() && before[t] == right@[b];
                        assert(out@[t] == right@[b]);
                    }
                }
                assert forall|t: int| 0 <= t < out@.len() && j + 1 < right@.len() implies precedes(
                    values@,
                    descending,
                    #[trigger] out@[t] as int,
                    right@[j + 1] as int,
                ) by {
                    assert(precedes(
                        values@,
                        descending,
                        right@[j as int] as int,
                        right@[j + 1] as int,
                    ));
                    if t < before.len() {
                        assert(out@[t] == before[t]);
                    }
                }
            }
            j += 1;
        }
    }
    proof {
        assert forall|p: usize| lo <= p < hi implies #[trigger] out@.contains(p) by {
            if p < mid {
                assert(left@.contains(p));
                let a = choose|a: int| 0 <= a < left@.len() && left@[a] == p;
                assert(out@.contains(left@[a]));
            } else {
                assert(right@.contains(p));
                let b = choose|b: int| 0 <= b < right@.len() && right@[b] == p;
                assert(out@.contains(right@[b]));
            }
        }
    }
    out
}

/// The places from `lo` up to `hi` in the order of a stable sort of their
/// values: each half is ordered, then the halves are merged.
fn order_range<S: Scalar>(values: &Vec<S>, descending: bool, lo: usize, hi: usize) -> (part: Vec<
    usize,
>)
    requires
        lo <= hi <= values@.len(),
    ensures
        orders_places(part@, values@, descending, lo as int, hi as int),
    decreases hi - lo,
{
    if hi - lo == 0 {
        Vec::new()
    } else if hi - lo == 1 {
        let mut part: Vec<usize> = Vec::new();
        part.push(lo);
        proof {
            assert(part@[0] == lo);
            assert forall|p: usize| lo <= p < hi implies #[trigger] part@.contains(p) by {
                assert(part@[0] == p);
            }
        }
        part
    } else {
        let mid: usize = lo + (hi - lo) / 2;
        let left = order_range(values, descending, lo, mid);
        let right = order_range(values, descending, mid, hi);
        merge(values, descending, &left, &right, Ghost(lo as int), Ghost(mid as int), Ghost(hi as int))
    }
}

/// The places of `values` in the order of a stable sort: by rank, ascending
/// or descending, values of like rank in the order in which they stand.
pub fn stable_order<S: Scalar>(values: &Vec<S>, descending: bool) -> (order: Vec<usize>)
    ensures
        is_ordering(order@, values@, descending),
        order@ == ordering(values@, descending),
{
    let order = order_range(values, descending, 0, values.len());
    proof {
        lemma_ordering_unique(order@, values@, descending);
    }
    order
}

} // verus!
