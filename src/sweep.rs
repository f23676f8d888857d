use vstd::prelude::*;

use crate::interval::{spec_overlapping, Interval};

verus! {

/// Where the cursor stops when it passes, from `c`, every target that ends
/// before `q` starts.
pub open spec fn skip_from(ts: Seq<Interval>, c: int, q: Interval) -> int
    decreases ts.len() - c,
{
    if 0 <= c < ts.len() && ts[c].end < q.start {
        skip_from(ts, c + 1, q)
    } else {
        c
    }
}

/// Where the cursor stops when it collects, from `c`, targets while they
/// overlap `q`.
pub open spec fn take_from(ts: Seq<Interval>, c: int, q: Interval) -> int
    decreases ts.len() - c,
{
    if 0 <= c < ts.len() && spec_overlapping(q, ts[c]) {
        take_from(ts, c + 1, q)
    } else {
        c
    }
}

/// The target cursor once the first `i` queries have been swept.
pub open spec fn cursor_after(qs: Seq<Interval>, ts: Seq<Interval>, i: int) -> int
    decreases i,
{
    if i <= 0 {
        0
    } else {
        let c = cursor_after(qs, ts, i - 1);
        take_from(ts, skip_from(ts, c, qs[i - 1]), qs[i - 1])
    }
}

/// Where the targets newly collected for query `i` begin.
pub open spec fn sweep_start(qs: Seq<Interval>, ts: Seq<Interval>, i: int) -> int {
    skip_from(ts, cursor_after(qs, ts, i), qs[i])
}

/// Where the window carried over from the query before `i` begins.
pub open spec fn carried_start(qs: Seq<Interval>, ts: Seq<Interval>, i: int) -> int {
    if i == 0 {
        0
    } else {
        sweep_start(qs, ts, i - 1)
    }
}

/// The indices in `lo..hi` whose target overlaps `q`, in order.
pub open spec fn overlapping_in(ts: Seq<Interval>, lo: int, hi: int, q: Interval) -> Seq<int>
    decreases hi - lo,
{
    if hi <= lo {
        Seq::empty()
    } else {
        let prev = overlapping_in(ts, lo, hi - 1, q);
        if spec_overlapping(q, ts[hi - 1]) {
            prev.push(hi - 1)
        } else {
            prev
        }
    }
}

/// The indices `lo..hi`, in order.
pub open spec fn index_range(lo: int, hi: int) -> Seq<int> {
    Seq::new((if hi >= lo { hi - lo } else { 0 }) as nat, |k: int| lo + k)
}

/// The targets reported for query `i`: those of the window carried from the
/// previous query that still overlap it, then those newly collected for it.
pub open spec fn sweep_result(qs: Seq<Interval>, ts: Seq<Interval>, i: int) -> Seq<int> {
    overlapping_in(ts, carried_start(qs, ts, i), cursor_after(qs, ts, i), qs[i]) + index_range(
        sweep_start(qs, ts, i),
        cursor_after(qs, ts, i + 1),
    )
}

/// The view of a list of target indices.
pub open spec fn indices_view(v: Vec<usize>) -> Seq<int> {
    v@.map_values(|k: usize| k as int)
}

pub proof fn lemma_skip_bounds(ts: Seq<Interval>, c: int, q: Interval)
    requires
        0 <= c <= ts.len(),
    ensures
        c <= skip_from(ts, c, q) <= ts.len(),
        forall|k: int| c <= k < skip_from(ts, c, q) ==> #[trigger] ts[k].end < q.start,
    decreases ts.len() - c,
{
    if c < ts.len() && ts[c].end < q.start {
        lemma_skip_bounds(ts, c + 1, q);
    }
}

pub proof fn lemma_take_bounds(ts: Seq<Interval>, c: int, q: Interval)
    requires
        0 <= c <= ts.len(),
    ensures
        c <= take_from(ts, c, q) <= ts.len(),
        forall|k: int| c <= k < take_from(ts, c, q) ==> spec_overlapping(q, #[trigger] ts[k]),
    decreases ts.len() - c,
{
    if c < ts.len() && spec_overlapping(q, ts[c]) {
        lemma_take_bounds(ts, c + 1, q);
    }
}

/// The cursor only moves forward, and the collection for each query starts
/// at or after the cursor.
pub proof fn lemma_cursor_bounds(qs: Seq<Interval>, ts: Seq<Interval>, i: int)
    requires
        0 <= i < qs.len(),
    ensures
        0 <= cursor_after(qs, ts, i) <= sweep_start(qs, ts, i) <= cursor_after(qs, ts, i + 1)
            <= ts.len(),
    decreases i,
{
    if i > 0 {
        lemma_cursor_bounds(qs, ts, i - 1);
    }
    lemma_skip_bounds(ts, cursor_after(qs, ts, i), qs[i]);
    lemma_take_bounds(ts, sweep_start(qs, ts, i), qs[i]);
}

proof fn lemma_sweep_start_monotone(qs: Seq<Interval>, ts: Seq<Interval>, i: int, j: int)
    requires
        0 <= i <= j < qs.len(),
    ensures
        sweep_start(qs, ts, i) <= sweep_start(qs, ts, j),
        i < j ==> cursor_after(qs, ts, i + 1) <= cursor_after(qs, ts, j),
    decreases j - i,
{
    lemma_cursor_bounds(qs, ts, j);
    if i < j {
        lemma_sweep_start_monotone(qs, ts, i, j - 1);
        lemma_cursor_bounds(qs, ts, j - 1);
    }
}

proof fn lemma_overlapping_in(ts: Seq<Interval>, lo: int, hi: int, q: Interval)
    ensures
        forall|k: int|
            0 <= k < overlapping_in(ts, lo, hi, q).len() ==> lo <= #[trigger] overlapping_in(
                ts,
                lo,
                hi,
                q,
            )[k] < hi && spec_overlapping(q, ts[overlapping_in(ts, lo, hi, q)[k]]),
    decreases hi - lo,
{
    if hi > lo {
        lemma_overlapping_in(ts, lo, hi - 1, q);
        let prev = overlapping_in(ts, lo, hi - 1, q);
        let cur = overlapping_in(ts, lo, hi, q);
        assert forall|k: int| 0 <= k < cur.len() implies lo <= #[trigger] cur[k] < hi
            && spec_overlapping(q, ts[cur[k]]) by {
            if k < prev.len() {
                assert(cur[k] == prev[k]);
            }
        }
    }
}

/// Every target reported for a query overlaps it.
pub proof fn lemma_sweep_sound(qs: Seq<Interval>, ts: Seq<Interval>, i: int)
    requires
        0 <= i < qs.len(),
    ensures
        forall|k: int|
            0 <= k < sweep_result(qs, ts, i).len() ==> {
                let t = #[trigger] sweep_result(qs, ts, i)[k];
                0 <= t < ts.len() && spec_overlapping(qs[i], ts[t])
            },
{
    lemma_cursor_bounds(qs, ts, i);
    if i > 0 {
        lemma_cursor_bounds(qs, ts, i - 1);
    }
    lemma_take_bounds(ts, sweep_start(qs, ts, i), qs[i]);
    lemma_overlapping_in(ts, carried_start(qs, ts, i), cursor_after(qs, ts, i), qs[i]);
    let a = overlapping_in(ts, carried_start(qs, ts, i), cursor_after(qs, ts, i), qs[i]);
    let b = index_range(sweep_start(qs, ts, i), cursor_after(qs, ts, i + 1));
    assert forall|k: int| 0 <= k < (a + b).len() implies {
        let t = #[trigger] (a + b)[k];
        0 <= t < ts.len() && spec_overlapping(qs[i], ts[t])
    } by {
        if k >= a.len() {
            assert((a + b)[k] == b[k - a.len()]);
        } else {
            assert((a + b)[k] == a[k]);
        }
    }
}

/// Monotonic pruning. Targets that the cursor passed over without collecting
/// while sweeping query `i` are reported for no query from `i` on, and no
/// query after `i` is reported a target below where the collection for `i`
/// began.
pub proof fn lemma_sweep_pruning(qs: Seq<Interval>, ts: Seq<Interval>, i: int, j: int, k: int)
    requires
        0 <= i <= j < qs.len(),
        0 <= k < sweep_result(qs, ts, j).len(),
    ensures
        !(cursor_after(qs, ts, i) <= sweep_result(qs, ts, j)[k] < sweep_start(qs, ts, i)),
        i < j ==> sweep_start(qs, ts, i) <= sweep_result(qs, ts, j)[k],
{
    lemma_cursor_bounds(qs, ts, j);
    lemma_sweep_start_monotone(qs, ts, i, j);
    if j > 0 {
        lemma_cursor_bounds(qs, ts, j - 1);
        if i < j {
            lemma_sweep_start_monotone(qs, ts, i, j - 1);
        }
    }
    lemma_overlapping_in(ts, carried_start(qs, ts, j), cursor_after(qs, ts, j), qs[j]);
    let a = overlapping_in(ts, carried_start(qs, ts, j), cursor_after(qs, ts, j), qs[j]);
    let b = index_range(sweep_start(qs, ts, j), cursor_after(qs, ts, j + 1));
    if k >= a.len() {
        assert((a + b)[k] == b[k - a.len()]);
    } else {
        assert((a + b)[k] == a[k]);
        if i == j && j > 0 {
            lemma_cursor_bounds(qs, ts, j - 1);
        }
    }
}

/// For each query, in order, the indices of the targets that overlap it, in
/// one forward pass over the targets.
pub fn find_overlaps(queries: &Vec<Interval>, targets: &Vec<Interval>) -> (r: Vec<Vec<usize>>)
    ensures
        r@.len() == queries@.len(),
        forall|i: int|
            0 <= i < r@.len() ==> indices_view(#[trigger] r@[i]) == sweep_result(
                queries@,
                targets@,
                i,
            ),
{
    let ghost qs = queries@;
    let ghost ts = targets@;
    let n = targets.len();
    let mut result: Vec<Vec<usize>> = Vec::new();
    let mut cursor: usize = 0;
    let mut prev_lo: usize = 0;
    let mut i: usize = 0;
    while i < queries.len()
        invariant
            qs == queries@,
            ts == targets@,
            n == ts.len(),
            0 <= i <= qs.len(),
            result@.len() == i,
            forall|j: int|
                0 <= j < i ==> indices_view(#[trigger] result@[j]) == sweep_result(qs, ts, j),
            cursor == cursor_after(qs, ts, i as int),
            cursor <= n,
            i < qs.len() ==> prev_lo == carried_start(qs, ts, i as int),
            prev_lo <= cursor,
        decreases qs.len() - i,
    {
        let q = queries[i];
        proof {
            lemma_cursor_bounds(qs, ts, i as int);
        }
        let carried_hi = cursor;
        // Pass the targets that end before this query starts.
        while cursor < n && targets[cursor].end < q.start
            invariant
                ts == targets@,
                n == ts.len(),
                cursor <= n,
                carried_hi <= cursor,
                skip_from(ts, cursor as int, q) == sweep_start(qs, ts, i as int),
            decreases n - cursor,
        {
            cursor = cursor + 1;
        }
        let start = cursor;
        // Collect targets while they overlap it.
        while cursor < n && q.overlapping(&targets[cursor])
            invariant
                ts == targets@,
                n == ts.len(),
                start <= cursor <= n,
                carried_hi <= start,
                take_from(ts, cursor as int, q) == take_from(ts, start as int, q),
            decreases n - cursor,
        {
            cursor = cursor + 1;
        }
        proof {
            assert(cursor == cursor_after(qs, ts, i + 1));
        }
        let mut found: Vec<usize> = Vec::new();
        let mut d: usize = prev_lo;
        while d < carried_hi
            invariant
                ts == targets@,
                n == ts.len(),
                prev_lo <= d <= carried_hi <= start <= n,
                indices_view(found) == overlapping_in(ts, prev_lo as int, d as int, q),
            decreases carried_hi - d,
        {
            if q.overlapping(&targets[d]) {
                let ghost before = indices_view(found);
                found.push(d);
                proof {
                    assert(indices_view(found) =~= before.push(d as int));
                    assert(indices_view(found) =~= overlapping_in(ts, prev_lo as int, d as int, q).push(
                        d as int,
                    ));
                }
            }
            d = d + 1;
        }
        let ghost carried = indices_view(found);
        let mut k: usize = start;
        while k < cursor
            invariant
                start <= k <= cursor,
                indices_view(found) == carried + index_range(start as int, k as int),
            decreases cursor - k,
        {
            let ghost before = indices_view(found);
            found.push(k);
            proof {
                assert(indices_view(found) =~= before.push(k as int));
                assert(index_range(start as int, k + 1) =~= index_range(start as int, k as int).push(
                    k as int,
                ));
                assert(indices_view(found) =~= carried + index_range(start as int, k + 1));
            }
            k = k + 1;
        }
        proof {
            assert(indices_view(found) =~= sweep_result(qs, ts, i as int));
        }
        result.push(found);
        prev_lo = start;
        i = i + 1;
        proof {
            assert forall|j: int| 0 <= j < i implies indices_view(#[trigger] result@[j])
                == sweep_result(qs, ts, j) by {}
        }
    }
    result
}

} // verus!
