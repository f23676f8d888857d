use vstd::prelude::*;

use sorted_list::SortedList;

use crate::interval::Interval;
use crate::rank::{best_choice, opt_index, rankable, resolve_all_overlaps};
use crate::record::{opt_view, Annotation};
use crate::sorted::{key_le, keys_sorted, list_entries, list_insert, list_to_vec, new_list, Key};
use crate::sweep::{find_overlaps, indices_view, lemma_sweep_sound, sweep_result};

verus! {

/// One output row: a query's contig and coordinates, and the chosen name.
pub struct OutputRecord {
    pub contig: String,
    pub start: u64,
    pub end: u64,
    pub name: String,
}

/// The interval a coordinate key stands for.
pub open spec fn interval_of(k: Key) -> Interval {
    Interval { start: k.0, end: k.1 }
}

/// The keys of a list's entries, as intervals.
pub open spec fn key_intervals(s: Seq<(Key, usize)>) -> Seq<Interval> {
    s.map_values(|e: (Key, usize)| interval_of(e.0))
}

/// The name written for a query: the chosen target's `gene_name`, or `.`
/// where no target was chosen or it has none.
pub open spec fn name_of(anns: Seq<Annotation>, c: Option<int>) -> Seq<char> {
    match c {
        Some(t) => match opt_view(anns[t].gene_name) {
            Some(g) => g,
            None => "."@,
        },
        None => "."@,
    }
}

/// The annotations that the sweep reports for query `i` of a contig.
pub open spec fn contig_candidates(qs: Seq<(Key, usize)>, ts: Seq<(Key, usize)>, i: int) -> Seq<int> {
    sweep_result(key_intervals(qs), key_intervals(ts), i).map_values(|k: int| ts[k].1 as int)
}

/// The target features of one contig: the annotations in the order read, and
/// a sorted list of their coordinates with each one's position.
pub struct TargetGroup {
    pub contig: String,
    pub list: SortedList<(u64, u64), usize>,
    pub annotations: Vec<Annotation>,
}

/// Some entry of `s` names position `k`.
pub open spec fn lists_position(s: Seq<(Key, usize)>, k: int) -> bool {
    exists|j: int| 0 <= j < s.len() && #[trigger] s[j].1 == k
}

/// Entry `a` comes before entry `b`: by coordinates, then by position.
pub open spec fn entry_before(a: (Key, usize), b: (Key, usize)) -> bool {
    key_le(a.0, b.0) && (a.0 == b.0 ==> a.1 < b.1)
}

impl TargetGroup {
    /// The list holds one entry per annotation: its well-formed coordinates
    /// and its position. Entries are ordered by coordinates, and annotations
    /// with equal coordinates by the order they were added in.
    pub open spec fn wf(&self) -> bool {
        let s = list_entries(self.list);
        &&& keys_sorted(s)
        &&& s.len() == self.annotations@.len()
        &&& forall|i: int, j: int| 0 <= i < j < s.len() ==> entry_before(#[trigger] s[i], #[trigger] s[j])
        &&& forall|k: int| 0 <= k < self.annotations@.len() ==> #[trigger] lists_position(s, k)
        &&& forall|j: int|
            0 <= j < s.len() ==> {
                let e = #[trigger] s[j];
                &&& e.1 < self.annotations@.len()
                &&& self.annotations@[e.1 as int].interval == interval_of(e.0)
                &&& interval_of(e.0).wf()
            }
    }

    pub fn new(contig: String) -> (r: TargetGroup)
        ensures
            r.wf(),
            r.contig == contig,
            r.annotations@.len() == 0,
            list_entries(r.list).len() == 0,
    {
        TargetGroup { contig, list: new_list(), annotations: Vec::new() }
    }

    /// Adds one feature of the contig.
    pub fn add(&mut self, a: Annotation)
        requires
            old(self).wf(),
            a.interval.wf(),
            old(self).annotations@.len() < usize::MAX,
        ensures
            final(self).wf(),
            final(self).contig == old(self).contig,
            final(self).annotations@ == old(self).annotations@.push(a),
            exists|p: int|
                #[trigger] crate::sorted::insert_position(
                    list_entries(old(self).list),
                    ((a.interval.start, a.interval.end), old(self).annotations@.len() as usize),
                    p,
                ) && list_entries(final(self).list) == list_entries(old(self).list).insert(
                    p,
                    ((a.interval.start, a.interval.end), old(self).annotations@.len() as usize),
                ),
    {
        let idx = self.annotations.len();
        let key: (u64, u64) = (a.interval.start, a.interval.end);
        self.annotations.push(a);
        let ghost before = list_entries(self.list);
        proof {
            if before.contains((key, idx)) {
                let j = choose|j: int| 0 <= j < before.len() && before[j] == (key, idx);
                assert(before[j].1 < idx);
            }
        }
        let inserted = list_insert(&mut self.list, key, idx);
        proof {
            let after = list_entries(self.list);
            let p = choose|p: int|
                crate::sorted::insert_position(before, (key, idx), p) && after == before.insert(
                    p,
                    (key, idx),
                );
            assert forall|j: int| 0 <= j < after.len() implies {
                let e = #[trigger] after[j];
                &&& e.1 < self.annotations@.len()
                &&& self.annotations@[e.1 as int].interval == interval_of(e.0)
                &&& interval_of(e.0).wf()
            } by {
                if j < p {
                    assert(after[j] == before[j]);
                } else if j > p {
                    assert(after[j] == before[j - 1]);
                }
            }
            assert forall|x: int, y: int| 0 <= x < y < after.len() implies entry_before(
                #[trigger] after[x],
                #[trigger] after[y],
            ) by {
                if y < p {
                    assert(after[x] == before[x] && after[y] == before[y]);
                } else if y == p {
                    assert(after[x] == before[x]);
                    assert(before[x].1 < idx);
                } else if x < p {
                    assert(after[x] == before[x] && after[y] == before[y - 1]);
                } else if x == p {
                    assert(after[y] == before[y - 1]);
                    assert(!key_le(before[y - 1].0, key));
                } else {
                    assert(after[x] == before[x - 1] && after[y] == before[y - 1]);
                }
            }
            assert forall|k: int| 0 <= k < self.annotations@.len() implies #[trigger] lists_position(
                after,
                k,
            ) by {
                if k == idx {
                    assert(after[p].1 == k);
                } else {
                    assert(lists_position(before, k));
                    let j = choose|j: int| 0 <= j < before.len() && #[trigger] before[j].1 == k;
                    if j < p {
                        assert(after[j].1 == k);
                    } else {
                        assert(after[j + 1].1 == k);
                    }
                }
            }
        }
    }
}

/// `rows` are the annotated rows of `queries` against `targets`: one per
/// query entry, in the list's order.
pub open spec fn contig_rows(
    contig: Seq<char>,
    queries: Seq<(Key, usize)>,
    targets: TargetGroup,
    rows: Seq<OutputRecord>,
) -> bool {
    &&& rows.len() == queries.len()
    &&& forall|i: int|
        0 <= i < rows.len() ==> {
            let q = queries[i].0;
            let o = #[trigger] rows[i];
            &&& o.contig@ == contig
            &&& o.start == q.0
            &&& o.end == q.1
            &&& o.name@ == name_of(
                targets.annotations@,
                best_choice(
                    interval_of(q),
                    targets.annotations@,
                    contig_candidates(queries, list_entries(targets.list), i),
                ),
            )
        }
}

/// Determinism: two annotations of the same contig write the same rows.
pub proof fn lemma_rows_determined(
    contig: Seq<char>,
    queries: Seq<(Key, usize)>,
    targets: TargetGroup,
    a: Seq<OutputRecord>,
    b: Seq<OutputRecord>,
)
    requires
        contig_rows(contig, queries, targets, a),
        contig_rows(contig, queries, targets, b),
    ensures
        a.len() == b.len(),
        forall|i: int|
            0 <= i < a.len() ==> (#[trigger] a[i]).contig@ == b[i].contig@ && a[i].start == b[i].start
                && a[i].end == b[i].end && a[i].name@ == b[i].name@,
{
    assert forall|i: int| 0 <= i < a.len() implies (#[trigger] a[i]).contig@ == b[i].contig@
        && a[i].start == b[i].start && a[i].end == b[i].end && a[i].name@ == b[i].name@ by {
    }
}

proof fn lemma_entry_at(g1: TargetGroup, g2: TargetGroup, i: int)
    requires
        g1.wf(),
        g2.wf(),
        g1.annotations@ == g2.annotations@,
        0 <= i < list_entries(g1.list).len(),
        forall|j: int| 0 <= j < i ==> list_entries(g1.list)[j] == list_entries(g2.list)[j],
    ensures
        list_entries(g1.list)[i] == list_entries(g2.list)[i],
{
    let s1 = list_entries(g1.list);
    let s2 = list_entries(g2.list);
    let anns = g1.annotations@;
    let e1 = s1[i];
    let e2 = s2[i];
    if e1 != e2 {
        assert(lists_position(s2, e1.1 as int));
        let j = choose|j: int| 0 <= j < s2.len() && #[trigger] s2[j].1 == e1.1;
        assert(anns[e1.1 as int].interval == interval_of(e1.0));
        assert(anns[s2[j].1 as int].interval == interval_of(s2[j].0));
        assert(s2[j] == e1);
        assert(lists_position(s1, e2.1 as int));
        let k = choose|k: int| 0 <= k < s1.len() && #[trigger] s1[k].1 == e2.1;
        assert(anns[s1[k].1 as int].interval == interval_of(s1[k].0));
        assert(anns[e2.1 as int].interval == interval_of(e2.0));
        assert(s1[k] == e2);
        if j < i {
            assert(s1[j] == s2[j]);
            assert(entry_before(s1[j], s1[i]));
        } else if k < i {
            assert(s1[k] == s2[k]);
            assert(entry_before(s2[k], s2[i]));
        } else {
            assert(entry_before(s2[i], s2[j]));
            assert(entry_before(s1[i], s1[k]));
        }
    }
}

proof fn lemma_entries_from(g1: TargetGroup, g2: TargetGroup, i: int)
    requires
        g1.wf(),
        g2.wf(),
        g1.annotations@ == g2.annotations@,
        0 <= i <= list_entries(g1.list).len(),
    ensures
        forall|j: int| 0 <= j < i ==> list_entries(g1.list)[j] == list_entries(g2.list)[j],
    decreases i,
{
    if i > 0 {
        lemma_entries_from(g1, g2, i - 1);
        lemma_entry_at(g1, g2, i - 1);
    }
}

/// A well-formed target group's list is fixed by its annotations.
pub proof fn lemma_group_list_determined(g1: TargetGroup, g2: TargetGroup)
    requires
        g1.wf(),
        g2.wf(),
        g1.annotations@ == g2.annotations@,
    ensures
        list_entries(g1.list) == list_entries(g2.list),
{
    lemma_entries_from(g1, g2, list_entries(g1.list).len() as int);
    assert(list_entries(g1.list) =~= list_entries(g2.list));
}

/// A query whose key is above every key already held lands at the end of
/// the list: a contig block read in increasing order is held, and annotated
/// row by row, in the order it was read.
pub proof fn lemma_increasing_query_appends(s: Seq<(Key, usize)>, e: (Key, usize), p: int)
    requires
        forall|j: int| 0 <= j < s.len() ==> key_le(#[trigger] s[j].0, e.0) && s[j].0 != e.0,
        crate::sorted::insert_position(s, e, p),
    ensures
        p == s.len(),
        s.insert(p, e) == s.push(e),
{
    if p < s.len() {
        assert(key_le(s[p].0, e.0));
    }
    assert(s.insert(p, e) =~= s.push(e));
}

/// The query coordinates of a contig are well formed and carry no payload.
pub open spec fn query_list_ok(s: Seq<(Key, usize)>) -> bool {
    &&& keys_sorted(s)
    &&& forall|j: int| 0 <= j < s.len() ==> interval_of((#[trigger] s[j]).0).wf() && s[j].1 == 0
}

/// An empty list of query coordinates.
pub fn new_query_list() -> (r: SortedList<(u64, u64), usize>)
    ensures
        list_entries(r) == Seq::<(Key, usize)>::empty(),
        query_list_ok(list_entries(r)),
{
    new_list()
}

/// Adds a query's coordinates, once: a query already held is not added again.
pub fn add_query_interval(l: &mut SortedList<(u64, u64), usize>, iv: Interval)
    requires
        query_list_ok(list_entries(*old(l))),
        iv.wf(),
    ensures
        query_list_ok(list_entries(*final(l))),
        list_entries(*old(l)).contains(((iv.start, iv.end), 0usize)) ==> list_entries(*final(l))
            == list_entries(*old(l)),
        !list_entries(*old(l)).contains(((iv.start, iv.end), 0usize)) ==> exists|p: int|
            #[trigger] crate::sorted::insert_position(list_entries(*old(l)), ((iv.start, iv.end), 0usize), p)
                && list_entries(*final(l)) == list_entries(*old(l)).insert(
                p,
                ((iv.start, iv.end), 0usize),
            ),
{
    let ghost before = list_entries(*l);
    let _ = list_insert(l, (iv.start, iv.end), 0);
    proof {
        let after = list_entries(*l);
        if before.contains(((iv.start, iv.end), 0usize)) {
            let k = choose|k: int| 0 <= k < before.len() && before[k] == ((iv.start, iv.end), 0usize);
            assert(before[k].0 == (iv.start, iv.end));
            assert forall|i: int| 0 <= i < before.len() && #[trigger] before[i].0 == (iv.start, iv.end)
                implies before[i].1 == 0usize by {
                assert(interval_of(before[i].0).wf());
            }
        }
        if after != before {
            let p = choose|p: int|
                crate::sorted::insert_position(before, ((iv.start, iv.end), 0usize), p) && after
                    == before.insert(p, ((iv.start, iv.end), 0usize));
            assert forall|j: int| 0 <= j < after.len() implies interval_of((#[trigger] after[j]).0).wf()
                && after[j].1 == 0 by {
                if j < p {
                    assert(after[j] == before[j]);
                } else if j > p {
                    assert(after[j] == before[j - 1]);
                }
            }
        }
    }
}

/// Annotates the queries of one contig: for each query, in the list's order,
/// its coordinates and the name of the best target that the sweep reports
/// for it.
pub fn annotate_contig(
    contig: &String,
    queries: &SortedList<(u64, u64), usize>,
    targets: &TargetGroup,
) -> (r: Vec<OutputRecord>)
    requires
        targets.wf(),
        forall|j: int|
            0 <= j < list_entries(*queries).len() ==> (#[trigger] interval_of(
                list_entries(*queries)[j].0,
            )).wf(),
    ensures
        contig_rows(contig@, list_entries(*queries), *targets, r@),
{
    let qe = list_to_vec(queries);
    let te = list_to_vec(&targets.list);
    let ghost anns = targets.annotations@;
    let mut qs: Vec<Interval> = Vec::new();
    let mut i: usize = 0;
    while i < qe.len()
        invariant
            0 <= i <= qe@.len(),
            qs@ == key_intervals(qe@.subrange(0, i as int)),
        decreases qe@.len() - i,
    {
        qs.push(Interval::new(qe[i].0.0, qe[i].0.1));
        proof {
            assert(qe@.subrange(0, i + 1) =~= qe@.subrange(0, i as int).push(qe@[i as int]));
            assert(qs@ =~= key_intervals(qe@.subrange(0, i + 1)));
        }
        i = i + 1;
    }
    let mut ts: Vec<Interval> = Vec::new();
    let mut k: usize = 0;
    while k < te.len()
        invariant
            0 <= k <= te@.len(),
            ts@ == key_intervals(te@.subrange(0, k as int)),
        decreases te@.len() - k,
    {
        ts.push(Interval::new(te[k].0.0, te[k].0.1));
        proof {
            assert(te@.subrange(0, k + 1) =~= te@.subrange(0, k as int).push(te@[k as int]));
            assert(ts@ =~= key_intervals(te@.subrange(0, k + 1)));
        }
        k = k + 1;
    }
    proof {
        assert(qe@.subrange(0, qe@.len() as int) =~= qe@);
        assert(te@.subrange(0, te@.len() as int) =~= te@);
    }
    let positions = find_overlaps(&qs, &ts);
    // Name each reported target by its annotation's position.
    let mut overlaps: Vec<Vec<usize>> = Vec::new();
    let mut a: usize = 0;
    while a < positions.len()
        invariant
            0 <= a <= positions@.len() == qs@.len(),
            qs@ == key_intervals(qe@),
            ts@ == key_intervals(te@),
            te@ == list_entries(targets.list),
            targets.wf(),
            forall|j: int|
                0 <= j < qe@.len() ==> (#[trigger] interval_of(qe@[j].0)).wf(),
            forall|x: int|
                0 <= x < positions@.len() ==> indices_view(#[trigger] positions@[x])
                    == sweep_result(qs@, ts@, x),
            overlaps@.len() == a,
            forall|x: int|
                0 <= x < a ==> indices_view(#[trigger] overlaps@[x]) == contig_candidates(
                    qe@,
                    te@,
                    x,
                ),
            forall|x: int, y: int|
                0 <= x < a && 0 <= y < overlaps@[x]@.len() ==> #[trigger] overlaps@[x]@[y]
                    < targets.annotations@.len() && rankable(
                    qs@[x],
                    targets.annotations@[overlaps@[x]@[y] as int].interval,
                ),
        decreases positions@.len() - a,
    {
        proof {
            lemma_sweep_sound(qs@, ts@, a as int);
        }
        let row = &positions[a];
        let mut named: Vec<usize> = Vec::new();
        let mut b: usize = 0;
        while b < row.len()
            invariant
                0 <= b <= row@.len(),
                a < positions@.len(),
                row == positions@[a as int],
                qs@ == key_intervals(qe@),
                ts@ == key_intervals(te@),
                te@ == list_entries(targets.list),
                targets.wf(),
                a < qe@.len(),
                (interval_of(qe@[a as int].0)).wf(),
                indices_view(*row) == sweep_result(qs@, ts@, a as int),
                forall|k: int|
                    0 <= k < sweep_result(qs@, ts@, a as int).len() ==> {
                        let t = #[trigger] sweep_result(qs@, ts@, a as int)[k];
                        0 <= t < ts@.len() && crate::interval::spec_overlapping(qs@[a as int], ts@[t])
                    },
                indices_view(named) == sweep_result(qs@, ts@, a as int).subrange(
                    0,
                    b as int,
                ).map_values(|k: int| te@[k].1 as int),
                forall|y: int|
                    0 <= y < named@.len() ==> #[trigger] named@[y] < targets.annotations@.len()
                        && rankable(
                        qs@[a as int],
                        targets.annotations@[named@[y] as int].interval,
                    ),
            decreases row@.len() - b,
        {
            let pos = row[b];
            proof {
                assert(indices_view(*row)[b as int] == pos as int);
                assert(sweep_result(qs@, ts@, a as int)[b as int] == pos as int);
                let e = te@[pos as int];
                assert(ts@[pos as int] == interval_of(e.0));
                assert(list_entries(targets.list)[pos as int] == e);
            }
            let ghost before = indices_view(named);
            named.push(te[pos].1);
            proof {
                let sr = sweep_result(qs@, ts@, a as int);
                assert(indices_view(named) =~= before.push(te@[pos as int].1 as int));
                assert(sr.subrange(0, b + 1) =~= sr.subrange(0, b as int).push(sr[b as int]));
                assert(indices_view(named) =~= sr.subrange(0, b + 1).map_values(
                    |k: int| te@[k].1 as int,
                ));
            }
            b = b + 1;
        }
        proof {
            let sr = sweep_result(qs@, ts@, a as int);
            assert(sr.subrange(0, sr.len() as int) =~= sr);
            assert(indices_view(named) == contig_candidates(qe@, te@, a as int));
        }
        let ghost before_rows = overlaps@;
        overlaps.push(named);
        proof {
            assert forall|x: int| 0 <= x < a + 1 implies indices_view(#[trigger] overlaps@[x])
                == contig_candidates(qe@, te@, x) by {
                if x < a {
                    assert(overlaps@[x] == before_rows[x]);
                }
            }
            assert forall|x: int, y: int|
                0 <= x < a + 1 && 0 <= y < overlaps@[x]@.len() implies #[trigger] overlaps@[x]@[y]
                < targets.annotations@.len() && rankable(
                qs@[x],
                targets.annotations@[overlaps@[x]@[y] as int].interval,
            ) by {
                if x < a {
                    assert(overlaps@[x] == before_rows[x]);
                }
            }
        }
        a = a + 1;
    }
    let chosen = resolve_all_overlaps(&qs, &targets.annotations, &overlaps);
    let mut out: Vec<OutputRecord> = Vec::new();
    let mut c: usize = 0;
    while c < chosen.len()
        invariant
            0 <= c <= chosen@.len() == qe@.len() == overlaps@.len(),
            qs@ == key_intervals(qe@),
            qe@ == list_entries(*queries),
            te@ == list_entries(targets.list),
            forall|x: int|
                0 <= x < overlaps@.len() ==> indices_view(#[trigger] overlaps@[x]) == contig_candidates(
                    qe@,
                    te@,
                    x,
                ),
            forall|x: int|
                0 <= x < chosen@.len() ==> opt_index(#[trigger] chosen@[x]) == best_choice(
                    qs@[x],
                    targets.annotations@,
                    indices_view(overlaps@[x]),
                ),
            forall|x: int|
                0 <= x < chosen@.len() ==> (#[trigger] chosen@[x] matches Some(t) ==> t
                    < targets.annotations@.len()),
            out@.len() == c,
            forall|i: int|
                0 <= i < c ==> {
                    let q = list_entries(*queries)[i].0;
                    let o = #[trigger] out@[i];
                    &&& o.contig@ == contig@
                    &&& o.start == q.0
                    &&& o.end == q.1
                    &&& o.name@ == name_of(
                        targets.annotations@,
                        best_choice(
                            interval_of(q),
                            targets.annotations@,
                            contig_candidates(list_entries(*queries), list_entries(targets.list), i),
                        ),
                    )
                },
        decreases chosen@.len() - c,
    {
        let name = match chosen[c] {
            Some(t) => match &targets.annotations[t].gene_name {
                Some(g) => g.clone(),
                None => ".".to_owned(),
            },
            None => ".".to_owned(),
        };
        let ghost before = out@;
        out.push(OutputRecord { contig: contig.clone(), start: qe[c].0.0, end: qe[c].0.1, name });
        proof {
            assert(qs@[c as int] == interval_of(qe@[c as int].0));
            assert forall|i: int| 0 <= i < c + 1 implies {
                let q = list_entries(*queries)[i].0;
                let o = #[trigger] out@[i];
                &&& o.contig@ == contig@
                &&& o.start == q.0
                &&& o.end == q.1
                &&& o.name@ == name_of(
                    targets.annotations@,
                    best_choice(
                        interval_of(q),
                        targets.annotations@,
                        contig_candidates(list_entries(*queries), list_entries(targets.list), i),
                    ),
                )
            } by {
                if i < c {
                    assert(out@[i] == before[i]);
                }
            }
        }
        c = c + 1;
    }
    out
}

} // verus!
