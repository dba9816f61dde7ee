//! The counting at the heart of the trading-intensity estimate: how many arrivals reached
//! beyond each tick.
use vstd::prelude::*;

verus! {

/// A tick is counted when it lies in `0 ..= limit`.
pub open spec fn tick_counted(t: i32, limit: i32) -> bool {
    0 <= t <= limit
}

/// The largest counted tick, or 0 when none is counted.
pub open spec fn max_counted_tick(ticks: Seq<i32>, limit: i32) -> int
    decreases ticks.len(),
{
    if ticks.len() == 0 {
        0
    } else {
        let m = max_counted_tick(ticks.drop_last(), limit);
        let t = ticks.last();
        if tick_counted(t, limit) && t > m {
            t as int
        } else {
            m
        }
    }
}

/// How many counted ticks lie strictly above `i`.
pub open spec fn count_above(ticks: Seq<i32>, limit: i32, i: int) -> nat
    decreases ticks.len(),
{
    if ticks.len() == 0 {
        0
    } else {
        let c = count_above(ticks.drop_last(), limit, i);
        let t = ticks.last();
        if tick_counted(t, limit) && t > i {
            c + 1
        } else {
            c
        }
    }
}

proof fn lemma_max_counted_tick_bounds(ticks: Seq<i32>, limit: i32)
    ensures
        0 <= max_counted_tick(ticks, limit),
        max_counted_tick(ticks, limit) <= limit || max_counted_tick(ticks, limit) == 0,
        forall|j: int|
            0 <= j < ticks.len() && tick_counted(#[trigger] ticks[j], limit) ==> ticks[j]
                <= max_counted_tick(ticks, limit),
    decreases ticks.len(),
{
    if ticks.len() > 0 {
        lemma_max_counted_tick_bounds(ticks.drop_last(), limit);
        assert forall|j: int|
            0 <= j < ticks.len() && tick_counted(#[trigger] ticks[j], limit) implies ticks[j]
            <= max_counted_tick(ticks, limit) by {
            if j < ticks.len() - 1 {
                assert(ticks.drop_last()[j] == ticks[j]);
            }
        }
    }
}

proof fn lemma_count_above_bounded(ticks: Seq<i32>, limit: i32, i: int)
    ensures
        count_above(ticks, limit, i) <= ticks.len(),
    decreases ticks.len(),
{
    if ticks.len() > 0 {
        lemma_count_above_bounded(ticks.drop_last(), limit, i);
    }
}

/// For each tick `i` below the largest counted tick, how many counted ticks lie above `i`:
/// the number of arrivals that reached beyond `i`. Ticks outside `0 ..= limit` are skipped.
pub fn arrival_tick_counts(ticks: &[i32], limit: i32) -> (r: Vec<usize>)
    ensures
        r@.len() == max_counted_tick(ticks@, limit),
        forall|i: int| 0 <= i < r@.len() ==> r@[i] == count_above(ticks@, limit, i),
{
    let mut max_tick: i32 = 0;
    let mut j: usize = 0;
    while j < ticks.len()
        invariant
            0 <= j <= ticks@.len(),
            max_tick == max_counted_tick(ticks@.take(j as int), limit),
        decreases ticks@.len() - j,
    {
        proof {
            assert(ticks@.take(j + 1).drop_last() =~= ticks@.take(j as int));
        }
        let t = ticks[j];
        if 0 <= t && t <= limit && t > max_tick {
            max_tick = t;
        }
        j = j + 1;
    }
    proof {
        assert(ticks@.take(ticks@.len() as int) =~= ticks@);
        lemma_max_counted_tick_bounds(ticks@, limit);
    }
    let n = max_tick as usize;
    let mut counts: Vec<usize> = Vec::new();
    while counts.len() < n
        invariant
            counts@.len() <= n,
            forall|i: int| 0 <= i < counts@.len() ==> counts@[i] == 0,
        decreases n - counts@.len(),
    {
        counts.push(0);
    }
    let len = ticks.len();
    let mut j: usize = 0;
    while j < len
        invariant
            0 <= j <= ticks@.len(),
            ticks@.len() == len,
            n == max_counted_tick(ticks@, limit),
            counts@.len() == n,
            forall|k: int|
                0 <= k < ticks@.len() && tick_counted(#[trigger] ticks@[k], limit) ==> ticks@[k] <= n,
            forall|i: int|
                0 <= i < n ==> #[trigger] counts@[i] == count_above(ticks@.take(j as int), limit, i),
        decreases ticks@.len() - j,
    {
        proof {
            assert(ticks@.take(j + 1).drop_last() =~= ticks@.take(j as int));
        }
        let t = ticks[j];
        if 0 <= t && t <= limit {
            let tu = t as usize;
            let mut i: usize = 0;
            while i < tu
                invariant
                    0 <= i <= tu <= n,
                    t == ticks@[j as int],
                    tu == t,
                    tick_counted(t, limit),
                    0 <= j < ticks@.len(),
                    ticks@.len() == len,
                    counts@.len() == n,
                    forall|x: int|
                        0 <= x < i ==> #[trigger] counts@[x] == count_above(
                            ticks@.take(j + 1),
                            limit,
                            x,
                        ),
                    forall|x: int|
                        i <= x < n ==> #[trigger] counts@[x] == count_above(
                            ticks@.take(j as int),
                            limit,
                            x,
                        ),
                decreases tu - i,
            {
                proof {
                    assert(ticks@.take(j + 1).drop_last() =~= ticks@.take(j as int));
                    lemma_count_above_bounded(ticks@.take(j as int), limit, i as int);
                    assert(counts@[i as int] == count_above(ticks@.take(j as int), limit, i as int));
                    assert(counts@[i as int] <= j);
                }
                counts.set(i, counts[i] + 1);
                i = i + 1;
            }
        }
        j = j + 1;
    }
    proof {
        assert(ticks@.take(ticks@.len() as int) =~= ticks@);
    }
    counts
}

/// The counts never grow with the tick: at least as many arrivals reach beyond `i` as
/// beyond any `j >= i`.
pub proof fn lemma_counts_non_increasing(ticks: Seq<i32>, limit: i32, i: int, j: int)
    requires
        i <= j,
    ensures
        count_above(ticks, limit, j) <= count_above(ticks, limit, i),
    decreases ticks.len(),
{
    if ticks.len() > 0 {
        lemma_counts_non_increasing(ticks.drop_last(), limit, i, j);
    }
}

/// Below the largest counted tick at least one arrival is counted, and none reaches beyond it.
pub proof fn lemma_counts_end_at_max_tick(ticks: Seq<i32>, limit: i32)
    ensures
        max_counted_tick(ticks, limit) > 0 ==> count_above(
            ticks,
            limit,
            max_counted_tick(ticks, limit) - 1,
        ) >= 1,
        count_above(ticks, limit, max_counted_tick(ticks, limit)) == 0,
    decreases ticks.len(),
{
    if ticks.len() > 0 {
        let prev = ticks.drop_last();
        lemma_counts_end_at_max_tick(prev, limit);
        lemma_max_counted_tick_bounds(prev, limit);
        let m = max_counted_tick(ticks, limit);
        let pm = max_counted_tick(prev, limit);
        lemma_counts_non_increasing(prev, limit, pm, m);
        if m > 0 && m != pm {
            lemma_counts_non_increasing(prev, limit, pm - 1, m - 1);
        }
    }
}

/// Whether the model is recalibrated at step `t`: every 50 steps, once the buffer of
/// `buffer_size` samples has been filled.
pub fn calibration_due(t: usize, buffer_size: usize) -> (r: bool)
    requires
        buffer_size >= 1,
    ensures
        r == (t % 50 == 0 && t >= buffer_size - 1),
{
    t % 50 == 0 && t >= buffer_size - 1
}

/// What one tick contributes to the largest counted tick.
pub open spec fn tick_weight(t: i32, limit: i32) -> int {
    if tick_counted(t, limit) {
        t as int
    } else {
        0
    }
}

/// What one tick contributes to the count above `i`.
pub open spec fn tick_above(t: i32, limit: i32, i: int) -> nat {
    if tick_counted(t, limit) && t > i {
        1
    } else {
        0
    }
}

/// The larger of two numbers.
pub open spec fn max_int(a: int, b: int) -> int {
    if a >= b {
        a
    } else {
        b
    }
}

proof fn lemma_tick_taken_out(ticks: Seq<i32>, limit: i32, k: int)
    requires
        0 <= k < ticks.len(),
    ensures
        max_counted_tick(ticks, limit) == max_int(
            max_counted_tick(ticks.remove(k), limit),
            tick_weight(ticks[k], limit),
        ),
        forall|i: int|
            #[trigger] count_above(ticks, limit, i) == count_above(ticks.remove(k), limit, i)
                + tick_above(ticks[k], limit, i),
    decreases ticks.len(),
{
    lemma_max_counted_tick_bounds(ticks, limit);
    lemma_max_counted_tick_bounds(ticks.remove(k), limit);
    if k == ticks.len() - 1 {
        assert(ticks.remove(k) =~= ticks.drop_last());
    } else {
        let prev = ticks.drop_last();
        lemma_tick_taken_out(prev, limit, k);
        lemma_max_counted_tick_bounds(prev, limit);
        lemma_max_counted_tick_bounds(prev.remove(k), limit);
        assert(ticks.remove(k).drop_last() =~= prev.remove(k));
        assert(ticks.remove(k).last() == ticks.last());
        assert(prev[k] == ticks[k]);
        assert forall|i: int| #[trigger] count_above(ticks, limit, i) == count_above(
            ticks.remove(k),
            limit,
            i,
        ) + tick_above(ticks[k], limit, i) by {
            assert(count_above(prev, limit, i) == count_above(prev.remove(k), limit, i) + tick_above(
                ticks[k],
                limit,
                i,
            ));
        }
    }
}

/// The order of the ticks does not matter: any permutation of them gives the same largest
/// counted tick and the same counts.
pub proof fn lemma_counts_ignore_order(ticks1: Seq<i32>, ticks2: Seq<i32>, limit: i32)
    requires
        ticks1.to_multiset() == ticks2.to_multiset(),
    ensures
        max_counted_tick(ticks1, limit) == max_counted_tick(ticks2, limit),
        forall|i: int| #[trigger] count_above(ticks1, limit, i) == count_above(ticks2, limit, i),
    decreases ticks1.len(),
{
    broadcast use vstd::seq_lib::group_to_multiset_ensures;

    if ticks1.len() == 0 {
        assert(ticks2.len() == 0) by {
            vstd::seq_lib::to_multiset_len(ticks1);
            vstd::seq_lib::to_multiset_len(ticks2);
        }
        assert(ticks2 =~= ticks1);
    } else {
        let x = ticks1.last();
        let rest1 = ticks1.drop_last();
        assert(ticks1 =~= rest1.push(x));
        vstd::seq_lib::to_multiset_build(rest1, x);
        vstd::seq_lib::to_multiset_contains(ticks1, x);
        vstd::seq_lib::to_multiset_contains(ticks2, x);
        assert(ticks1.contains(x)) by {
            assert(ticks1[ticks1.len() - 1] == x);
        }
        let k = choose|k: int| 0 <= k < ticks2.len() && ticks2[k] == x;
        vstd::seq_lib::to_multiset_remove(ticks2, k);
        assert(rest1.to_multiset() =~= ticks2.remove(k).to_multiset()) by {
            broadcast use vstd::multiset::group_multiset_axioms;

        }
        lemma_counts_ignore_order(rest1, ticks2.remove(k), limit);
        lemma_tick_taken_out(ticks2, limit, k);
        lemma_max_counted_tick_bounds(rest1, limit);
        assert forall|i: int| #[trigger] count_above(ticks1, limit, i) == count_above(
            ticks2,
            limit,
            i,
        ) by {
            assert(count_above(rest1, limit, i) == count_above(ticks2.remove(k), limit, i));
        }
    }
}

/// Every tick in `0 ..= limit` counts, whatever its size: the count above `i` is the number of
/// ticks `t` with `0 <= t <= limit` and `t > i`.
pub proof fn lemma_count_above_counts_ticks(ticks: Seq<i32>, limit: i32, i: int)
    ensures
        count_above(ticks, limit, i) == ticks.filter(|t: i32| 0 <= t <= limit && t > i).len(),
    decreases ticks.len(),
{
    if ticks.len() > 0 {
        let prev = ticks.drop_last();
        lemma_count_above_counts_ticks(prev, limit, i);
        assert(ticks =~= prev.push(ticks.last()));
        prev.lemma_filter_len_push(|t: i32| 0 <= t <= limit && t > i, ticks.last());
    }
}

/// The largest counted tick is the largest tick in `0 ..= limit`, whatever its size, or 0 when
/// no tick is in range.
pub proof fn lemma_max_counted_tick_is_largest(ticks: Seq<i32>, limit: i32)
    ensures
        max_counted_tick(ticks, limit) >= 0,
        forall|j: int|
            0 <= j < ticks.len() && 0 <= #[trigger] ticks[j] <= limit ==> ticks[j] <= max_counted_tick(
                ticks,
                limit,
            ),
        max_counted_tick(ticks, limit) > 0 ==> exists|j: int|
            0 <= j < ticks.len() && 0 <= #[trigger] ticks[j] <= limit && ticks[j] == max_counted_tick(
                ticks,
                limit,
            ),
    decreases ticks.len(),
{
    lemma_max_counted_tick_bounds(ticks, limit);
    if ticks.len() > 0 {
        let prev = ticks.drop_last();
        lemma_max_counted_tick_is_largest(prev, limit);
        if max_counted_tick(ticks, limit) > 0 && max_counted_tick(ticks, limit) == max_counted_tick(
            prev,
            limit,
        ) {
            let j = choose|j: int|
                0 <= j < prev.len() && 0 <= #[trigger] prev[j] <= limit && prev[j] == max_counted_tick(
                    prev,
                    limit,
                );
            assert(ticks[j] == prev[j]);
        } else if max_counted_tick(ticks, limit) > 0 {
            assert(ticks[ticks.len() - 1] == ticks.last());
        }
    }
}

/// A single tick in `0 ..= limit`, however large, gives `t` counts of one.
pub proof fn lemma_single_tick_counts(t: i32, limit: i32)
    requires
        0 <= t <= limit,
    ensures
        max_counted_tick(seq![t], limit) == t,
        forall|i: int| 0 <= i < t ==> #[trigger] count_above(seq![t], limit, i) == 1,
{
    lemma_max_counted_tick_is_largest(seq![t], limit);
    assert(seq![t][0] == t);
    assert forall|i: int| 0 <= i < t implies #[trigger] count_above(seq![t], limit, i) == 1 by {
        let one = seq![t];
        assert(one.drop_last() =~= Seq::<i32>::empty());
        assert(count_above(one.drop_last(), limit, i) == 0);
        assert(one.last() == t);
    }
}

} // verus!
