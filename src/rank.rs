use vstd::prelude::*;

use crate::interval::{spec_overlapping, Interval};
use crate::record::{opt_view, Annotation};
use crate::sweep::indices_view;

verus! {

/// The position of a feature type in `CDS < stop_codon < start_codon < UTR <
/// exon < transcript < gene`; 255 for any other type.
pub open spec fn feature_rank(t: Seq<char>) -> u8 {
    if t == "CDS"@ {
        0
    } else if t == "stop_codon"@ {
        1
    } else if t == "start_codon"@ {
        2
    } else if t == "UTR"@ {
        3
    } else if t == "exon"@ {
        4
    } else if t == "transcript"@ {
        5
    } else if t == "gene"@ {
        6
    } else {
        255
    }
}

/// The position of a transcript support level in `1 < 2 < 3 < 4 < 5 < NA`;
/// 255 for any other value, or none.
pub open spec fn tsl_rank(v: Option<Seq<char>>) -> u8 {
    match v {
        Some(t) => if t == "1"@ {
            0
        } else if t == "2"@ {
            1
        } else if t == "3"@ {
            2
        } else if t == "4"@ {
            3
        } else if t == "5"@ {
            4
        } else if t == "NA"@ {
            5
        } else {
            255
        },
        None => 255,
    }
}

/// 0 for a protein-coding transcript type, else 255.
pub open spec fn coding_rank(v: Option<Seq<char>>) -> u8 {
    if v == Some("protein_coding"@) {
        0
    } else {
        255
    }
}

/// The one-sided overlap extent used as the last tie-break.
pub open spec fn overlap_extent(q: Interval, t: Interval) -> int {
    if q.start < t.start {
        q.end - t.start
    } else {
        t.end - q.start
    }
}

/// The six ranking fields of a target for a query; lower ranks first.
#[derive(Clone, Copy, PartialEq, Eq, Structural, Debug)]
pub struct RankKey {
    pub feature: u8,
    pub mane: u8,
    pub tsl: u8,
    pub level: u8,
    pub coding: u8,
    pub extent: u64,
}

pub open spec fn spec_rank_key(q: Interval, a: Annotation) -> RankKey {
    RankKey {
        feature: feature_rank(a.feature_type@),
        mane: if a.mane {
            0
        } else {
            255
        },
        tsl: tsl_rank(opt_view(a.tsl)),
        level: a.level,
        coding: coding_rank(opt_view(a.transcript_type)),
        extent: overlap_extent(q, a.interval) as u64,
    }
}

/// Lexicographic order on ranking keys.
pub open spec fn key_lt(a: RankKey, b: RankKey) -> bool {
    if a.feature != b.feature {
        a.feature < b.feature
    } else if a.mane != b.mane {
        a.mane < b.mane
    } else if a.tsl != b.tsl {
        a.tsl < b.tsl
    } else if a.level != b.level {
        a.level < b.level
    } else if a.coding != b.coding {
        a.coding < b.coding
    } else {
        a.extent < b.extent
    }
}

/// A target may be ranked for a query: it overlaps it and both intervals are
/// well formed.
pub open spec fn rankable(q: Interval, t: Interval) -> bool {
    q.wf() && t.wf() && spec_overlapping(q, t)
}

/// Position `p` of `cands` holds the best target for `q`: no candidate ranks
/// before it, and every candidate before it ranks after it.
pub open spec fn is_best(q: Interval, targets: Seq<Annotation>, cands: Seq<int>, p: int) -> bool {
    &&& 0 <= p < cands.len()
    &&& forall|j: int|
        0 <= j < cands.len() ==> !key_lt(
            #[trigger] spec_rank_key(q, targets[cands[j]]),
            spec_rank_key(q, targets[cands[p]]),
        )
    &&& forall|j: int|
        0 <= j < p ==> key_lt(
            spec_rank_key(q, targets[cands[p]]),
            #[trigger] spec_rank_key(q, targets[cands[j]]),
        )
}

/// The best target for `q` among `cands`, if there is a candidate.
pub open spec fn best_choice(q: Interval, targets: Seq<Annotation>, cands: Seq<int>) -> Option<int> {
    if exists|p: int| is_best(q, targets, cands, p) {
        Some(cands[choose|p: int| is_best(q, targets, cands, p)])
    } else {
        None
    }
}

/// An optional index as an integer.
pub open spec fn opt_index(o: Option<usize>) -> Option<int> {
    match o {
        Some(k) => Some(k as int),
        None => None,
    }
}

/// At most one position holds the best target.
pub proof fn lemma_best_unique(q: Interval, targets: Seq<Annotation>, cands: Seq<int>, pa: int, pb: int)
    requires
        is_best(q, targets, cands, pa),
        is_best(q, targets, cands, pb),
    ensures
        pa == pb,
{
    if pa < pb {
        assert(key_lt(spec_rank_key(q, targets[cands[pb]]), spec_rank_key(q, targets[cands[pa]])));
    } else if pb < pa {
        assert(key_lt(spec_rank_key(q, targets[cands[pa]]), spec_rank_key(q, targets[cands[pb]])));
    }
}

/// A `CDS` feature ranks before a `gene` feature for any query, whatever
/// their other attributes.
pub proof fn lemma_cds_before_gene(q: Interval, a: Annotation, b: Annotation)
    requires
        a.feature_type@ == "CDS"@,
        b.feature_type@ == "gene"@,
    ensures
        key_lt(spec_rank_key(q, a), spec_rank_key(q, b)),
        !key_lt(spec_rank_key(q, b), spec_rank_key(q, a)),
{
    reveal_strlit("CDS");
    reveal_strlit("stop_codon");
    reveal_strlit("start_codon");
    reveal_strlit("UTR");
    reveal_strlit("exon");
    reveal_strlit("transcript");
    reveal_strlit("gene");
    assert("gene"@ != "CDS"@) by {
        assert("gene"@[0] != "CDS"@[0]);
    }
    assert("gene"@ != "stop_codon"@) by {
        assert("gene"@.len() != "stop_codon"@.len());
    }
    assert("gene"@ != "start_codon"@) by {
        assert("gene"@.len() != "start_codon"@.len());
    }
    assert("gene"@ != "UTR"@) by {
        assert("gene"@.len() != "UTR"@.len());
    }
    assert("gene"@ != "exon"@) by {
        assert("gene"@[0] != "exon"@[0]);
    }
    assert("gene"@ != "transcript"@) by {
        assert("gene"@.len() != "transcript"@.len());
    }
    assert(feature_rank(a.feature_type@) == 0);
    assert(feature_rank(b.feature_type@) == 6);
}

/// Of two overlapping candidates, one a `CDS` feature and the other a `gene`
/// feature, the `CDS` one is chosen, in either order.
pub proof fn lemma_cds_chosen_over_gene(q: Interval, targets: Seq<Annotation>, cands: Seq<int>, x: int)
    requires
        cands.len() == 2,
        x == 0 || x == 1,
        0 <= cands[0] < targets.len(),
        0 <= cands[1] < targets.len(),
        targets[cands[x]].feature_type@ == "CDS"@,
        targets[cands[1 - x]].feature_type@ == "gene"@,
    ensures
        best_choice(q, targets, cands) == Some(cands[x]),
{
    lemma_cds_before_gene(q, targets[cands[x]], targets[cands[1 - x]]);
    assert(is_best(q, targets, cands, x));
    let p = choose|p: int| is_best(q, targets, cands, p);
    lemma_best_unique(q, targets, cands, p, x);
}

fn is_word(s: &String, w: &str) -> (r: bool)
    ensures
        r == (s@ == w@),
{
    *s == w.to_owned()
}

fn opt_is_word(s: &Option<String>, w: &str) -> (r: bool)
    ensures
        r == (opt_view(*s) == Some(w@)),
{
    match s {
        Some(v) => is_word(v, w),
        None => false,
    }
}

/// The ranking key of target `a` for query `q`.
pub fn rank_key(q: &Interval, a: &Annotation) -> (r: RankKey)
    requires
        rankable(*q, a.interval),
    ensures
        r == spec_rank_key(*q, *a),
        r.extent as int == overlap_extent(*q, a.interval),
{
    let t = &a.feature_type;
    let feature: u8 = if is_word(t, "CDS") {
        0
    } else if is_word(t, "stop_codon") {
        1
    } else if is_word(t, "start_codon") {
        2
    } else if is_word(t, "UTR") {
        3
    } else if is_word(t, "exon") {
        4
    } else if is_word(t, "transcript") {
        5
    } else if is_word(t, "gene") {
        6
    } else {
        255
    };
    let mane: u8 = if a.mane {
        0
    } else {
        255
    };
    let s = &a.tsl;
    let tsl: u8 = if opt_is_word(s, "1") {
        0
    } else if opt_is_word(s, "2") {
        1
    } else if opt_is_word(s, "3") {
        2
    } else if opt_is_word(s, "4") {
        3
    } else if opt_is_word(s, "5") {
        4
    } else if opt_is_word(s, "NA") {
        5
    } else {
        255
    };
    let coding: u8 = if opt_is_word(&a.transcript_type, "protein_coding") {
        0
    } else {
        255
    };
    let extent: u64 = if q.start < a.interval.start {
        q.end - a.interval.start
    } else {
        a.interval.end - q.start
    };
    RankKey { feature, mane, tsl, level: a.level, coding, extent }
}

/// Whether `a` ranks strictly before `b`.
pub fn key_less(a: &RankKey, b: &RankKey) -> (r: bool)
    ensures
        r == key_lt(*a, *b),
{
    if a.feature != b.feature {
        a.feature < b.feature
    } else if a.mane != b.mane {
        a.mane < b.mane
    } else if a.tsl != b.tsl {
        a.tsl < b.tsl
    } else if a.level != b.level {
        a.level < b.level
    } else if a.coding != b.coding {
        a.coding < b.coding
    } else {
        a.extent < b.extent
    }
}

/// The position in `cands` of the best target for `q`: the first of those
/// with the lowest ranking key. `None` only when there are no candidates.
pub fn best_candidate(q: &Interval, targets: &Vec<Annotation>, cands: &Vec<usize>) -> (r: Option<usize>)
    requires
        forall|j: int|
            0 <= j < cands@.len() ==> #[trigger] cands@[j] < targets@.len() && rankable(
                *q,
                targets@[cands@[j] as int].interval,
            ),
    ensures
        r is None <==> cands@.len() == 0,
        r matches Some(p) ==> is_best(*q, targets@, indices_view(*cands), p as int),
{
    let ghost cs = indices_view(*cands);
    let ghost ts = targets@;
    if cands.len() == 0 {
        return None;
    }
    let mut best: usize = 0;
    let mut best_key = rank_key(q, &targets[cands[0]]);
    let mut i: usize = 1;
    while i < cands.len()
        invariant
            cs == indices_view(*cands),
            ts == targets@,
            forall|j: int|
                0 <= j < cands@.len() ==> #[trigger] cands@[j] < targets@.len() && rankable(
                    *q,
                    targets@[cands@[j] as int].interval,
                ),
            1 <= i <= cands@.len(),
            0 <= best < i,
            best_key == spec_rank_key(*q, ts[cs[best as int]]),
            forall|j: int|
                0 <= j < i ==> !key_lt(#[trigger] spec_rank_key(*q, ts[cs[j]]), best_key),
            forall|j: int| 0 <= j < best ==> key_lt(best_key, #[trigger] spec_rank_key(*q, ts[cs[j]])),
        decreases cands@.len() - i,
    {
        let key = rank_key(q, &targets[cands[i]]);
        if key_less(&key, &best_key) {
            best = i;
            best_key = key;
        }
        i = i + 1;
    }
    Some(best)
}

/// For each query, the index of its best target among those the sweep
/// reported for it, or `None` where it has none.
pub fn resolve_all_overlaps(
    queries: &Vec<Interval>,
    targets: &Vec<Annotation>,
    overlaps: &Vec<Vec<usize>>,
) -> (r: Vec<Option<usize>>)
    requires
        overlaps@.len() == queries@.len(),
        forall|i: int, j: int|
            0 <= i < overlaps@.len() && 0 <= j < overlaps@[i]@.len() ==> #[trigger] overlaps@[i]@[j]
                < targets@.len() && rankable(
                queries@[i],
                targets@[overlaps@[i]@[j] as int].interval,
            ),
    ensures
        r@.len() == queries@.len(),
        forall|i: int|
            0 <= i < r@.len() ==> {
                let cands = indices_view(#[trigger] overlaps@[i]);
                &&& r@[i] is None <==> cands.len() == 0
                &&& r@[i] matches Some(t) ==> exists|p: int|
                    is_best(queries@[i], targets@, cands, p) && cands[p] == t
            },
        forall|i: int|
            0 <= i < r@.len() ==> opt_index(#[trigger] r@[i]) == best_choice(
                queries@[i],
                targets@,
                indices_view(overlaps@[i]),
            ),
{
    let mut r: Vec<Option<usize>> = Vec::new();
    let mut i: usize = 0;
    while i < queries.len()
        invariant
            overlaps@.len() == queries@.len(),
            forall|i: int, j: int|
                0 <= i < overlaps@.len() && 0 <= j < overlaps@[i]@.len() ==> #[trigger] overlaps@[i]@[j]
                    < targets@.len() && rankable(
                    queries@[i],
                    targets@[overlaps@[i]@[j] as int].interval,
                ),
            0 <= i <= queries@.len(),
            r@.len() == i,
            forall|k: int|
                0 <= k < i ==> {
                    let cands = indices_view(#[trigger] overlaps@[k]);
                    &&& r@[k] is None <==> cands.len() == 0
                    &&& r@[k] matches Some(t) ==> exists|p: int|
                        is_best(queries@[k], targets@, cands, p) && cands[p] == t
                },
        decreases queries@.len() - i,
    {
        let cands = &overlaps[i];
        proof {
            assert forall|j: int| 0 <= j < cands@.len() implies #[trigger] cands@[j] < targets@.len()
                && rankable(queries@[i as int], targets@[cands@[j] as int].interval) by {
                assert(overlaps@[i as int]@[j] == cands@[j]);
            }
        }
        let ghost mut pos: int = 0;
        let chosen = match best_candidate(&queries[i], targets, cands) {
            Some(p) => {
                proof {
                    pos = p as int;
                }
                Some(cands[p])
            },
            None => None,
        };
        let ghost before = r@;
        r.push(chosen);
        proof {
            let cs = indices_view(overlaps@[i as int]);
            assert forall|k: int| 0 <= k < i + 1 implies {
                let cands = indices_view(#[trigger] overlaps@[k]);
                &&& r@[k] is None <==> cands.len() == 0
                &&& r@[k] matches Some(t) ==> exists|p: int|
                    is_best(queries@[k], targets@, cands, p) && cands[p] == t
            } by {
                if k == i {
                    assert(*cands == overlaps@[i as int]);
                    if chosen is Some {
                        assert(cs[pos] == cands@[pos] as int);
                        assert(is_best(queries@[k], targets@, cs, pos) && cs[pos] == chosen->0);
                        assert(r@[k] == chosen);
                    } else {
                        assert(cs.len() == cands@.len());
                    }
                    assert(r@[k] is None <==> cs.len() == 0);
                } else {
                    assert(r@[k] == before[k]);
                    let cands = indices_view(overlaps@[k]);
                    assert(before[k] is None <==> cands.len() == 0);
                    if before[k] is Some {
                        let t = before[k]->0;
                        let p = choose|p: int| is_best(queries@[k], targets@, cands, p) && cands[p] == t;
                        assert(is_best(queries@[k], targets@, cands, p) && cands[p] == t);
                    }
                }
            }
        }
        i = i + 1;
    }
    proof {
        assert forall|i: int| 0 <= i < r@.len() implies opt_index(#[trigger] r@[i]) == best_choice(
            queries@[i],
            targets@,
            indices_view(overlaps@[i]),
        ) by {
            let cands = indices_view(overlaps@[i]);
            if r@[i] is Some {
                let t = r@[i]->0;
                let p = choose|p: int| is_best(queries@[i], targets@, cands, p) && cands[p] == t;
                let pb = choose|p: int| is_best(queries@[i], targets@, cands, p);
                lemma_best_unique(queries@[i], targets@, cands, p, pb);
            } else {
                assert(!exists|p: int| is_best(queries@[i], targets@, cands, p));
            }
        }
    }
    r
}

} // verus!
