use vstd::prelude::*;

use sorted_list::SortedList;

use crate::contig::{
    add_query_interval, annotate_contig, contig_rows, interval_of, lemma_group_list_determined, OutputRecord, TargetGroup,
};
use crate::interval::Interval;
use crate::attributes::attribute_pairs;
use crate::record::{decoded_annotation, gff_fields_ok, Annotation, GffLine};
use crate::text::{chars_of, split_fields};
use crate::sorted::{keys_sorted, list_entries, list_insert, new_list, Key};

verus! {

/// Why a run stopped.
#[derive(Debug)]
pub enum AnnoError {
    /// The query or target line with this index could not be decoded.
    Parse(usize),
    /// The target line with this index has an attribute fragment, given,
    /// without a key/value separator.
    MalformedAttribute(usize, String),
    /// The query contig reappeared, at the line with this index, after
    /// another contig had started.
    OutOfOrderContig(String, usize),
    /// The target line with this index would give its contig more features
    /// than a `usize` can count.
    TooManyTargets(usize),
}

/// One query record: its line index, contig and interval.
pub struct QueryRecord {
    pub line: usize,
    pub contig: String,
    pub interval: Interval,
}

/// One line of the target stream, with its index.
pub struct TargetLine {
    pub line: usize,
    pub text: String,
}

/// What the caller hands to the synchronizer.
pub enum Input {
    /// Begin, or go on after the caller wrote out an `Emit`.
    Resume,
    /// The next query record, or `None` at the end of the query stream.
    Query(Option<QueryRecord>),
    /// The next target line, or `None` at the end of the target stream.
    Target(Option<TargetLine>),
}

/// What the synchronizer asks of the caller next.
pub enum Action {
    ReadQuery,
    ReadTarget,
    /// Write these rows out, then hand back `Input::Resume`.
    Emit(Vec<OutputRecord>),
    Finished,
}

/// A target feature read ahead of where it is needed.
pub struct HeldTarget {
    pub contig: String,
    pub annotation: Annotation,
}

/// Groups two contig-ordered streams into one contig at a time: all queries
/// of a contig, then all its targets, buffering targets of contigs that the
/// query stream has not reached yet.
pub struct Synchronizer {
    /// The contig whose queries are being gathered or annotated.
    pub current: Option<String>,
    pub queries: SortedList<(u64, u64), usize>,
    pub has_queries: bool,
    /// The target features received for each contig and not annotated yet,
    /// in the order received; the one read ahead is not among them.
    pub received: Ghost<Map<Seq<char>, Seq<Annotation>>>,
    /// The first query of the next contig, read ahead.
    pub held_query: Option<QueryRecord>,
    pub queries_done: bool,
    /// Query contigs already finished.
    pub seen: Vec<String>,
    /// Targets of contigs that the query stream has not reached yet.
    pub future: Vec<TargetGroup>,
    /// The targets of the current contig, while they are being read.
    pub collecting: Option<TargetGroup>,
    /// The first target of another contig, read ahead.
    pub held_target: Option<HeldTarget>,
    pub targets_done: bool,
    /// No target record has been read yet: `#` lines are a header.
    pub in_header: bool,
}

/// A header line of the target stream.
pub open spec fn is_comment(s: Seq<char>) -> bool {
    s.len() > 0 && s[0] == '#'
}

/// The features received for contig `c`.
pub open spec fn recv(m: Map<Seq<char>, Seq<Annotation>>, c: Seq<char>) -> Seq<Annotation> {
    if m.dom().contains(c) {
        m[c]
    } else {
        Seq::empty()
    }
}

/// `m` with feature `a` received for contig `c`.
pub open spec fn add_recv(m: Map<Seq<char>, Seq<Annotation>>, c: Seq<char>, a: Annotation) -> Map<
    Seq<char>,
    Seq<Annotation>,
> {
    m.insert(c, recv(m, c).push(a))
}

/// `rows` annotate the queries held for contig `contig` against a target
/// group holding exactly the features `anns`, in that order.
pub open spec fn emitted(
    contig: Seq<char>,
    queries: Seq<(Key, usize)>,
    anns: Seq<Annotation>,
    rows: Seq<OutputRecord>,
) -> bool {
    exists|g: TargetGroup|
        g.wf() && g.contig@ == contig && g.annotations@ == anns && #[trigger] contig_rows(
            contig,
            queries,
            g,
            rows,
        )
}

/// Determinism: the rows emitted for a contig are fixed by its queries and
/// the features received for it.
pub proof fn lemma_emitted_determined(
    contig: Seq<char>,
    queries: Seq<(Key, usize)>,
    anns: Seq<Annotation>,
    a: Seq<OutputRecord>,
    b: Seq<OutputRecord>,
)
    requires
        emitted(contig, queries, anns, a),
        emitted(contig, queries, anns, b),
    ensures
        a.len() == b.len(),
        forall|i: int|
            0 <= i < a.len() ==> (#[trigger] a[i]).contig@ == b[i].contig@ && a[i].start == b[i].start
                && a[i].end == b[i].end && a[i].name@ == b[i].name@,
{
    let ga = choose|g: TargetGroup|
        g.wf() && g.contig@ == contig && g.annotations@ == anns && #[trigger] contig_rows(
            contig,
            queries,
            g,
            a,
        );
    let gb = choose|g: TargetGroup|
        g.wf() && g.contig@ == contig && g.annotations@ == anns && #[trigger] contig_rows(
            contig,
            queries,
            g,
            b,
        );
    lemma_group_list_determined(ga, gb);
    assert forall|i: int| 0 <= i < a.len() implies (#[trigger] a[i]).contig@ == b[i].contig@
        && a[i].start == b[i].start && a[i].end == b[i].end && a[i].name@ == b[i].name@ by {
    }
}

pub open spec fn seen_view(v: Seq<String>) -> Seq<Seq<char>> {
    v.map_values(|s: String| s@)
}

/// Some group, buffered or being collected, is for contig `c`.
pub open spec fn has_group(collecting: Option<TargetGroup>, future: Seq<TargetGroup>, c: Seq<char>) -> bool {
    (collecting matches Some(g) && g.contig@ == c) || exists|j: int|
        0 <= j < future.len() && (#[trigger] future[j]).contig@ == c
}

/// A query key as held: its coordinates, with no payload.
pub open spec fn query_entry(iv: Interval) -> (Key, usize) {
    ((iv.start, iv.end), 0usize)
}

/// What the synchronizer's decisions depend on, as mathematical values.
pub struct SyncView {
    pub current: Option<Seq<char>>,
    pub queries: Seq<(Key, usize)>,
    pub has_queries: bool,
    pub held_query: Option<(usize, Seq<char>, Interval)>,
    pub queries_done: bool,
    pub seen: Seq<Seq<char>>,
    pub received: Map<Seq<char>, Seq<Annotation>>,
    /// The contig whose targets are being collected.
    pub collecting: Option<Seq<char>>,
    pub held_target: Option<(Seq<char>, Annotation)>,
    pub targets_done: bool,
    pub in_header: bool,
}

/// What a step asks for next, or that it failed.
pub enum Outcome {
    ReadQuery,
    ReadTarget,
    Emit,
    Finished,
    Failed,
}

pub open spec fn outcome_of(r: Result<Action, AnnoError>) -> Outcome {
    match r {
        Ok(Action::ReadQuery) => Outcome::ReadQuery,
        Ok(Action::ReadTarget) => Outcome::ReadTarget,
        Ok(Action::Emit(_)) => Outcome::Emit,
        Ok(Action::Finished) => Outcome::Finished,
        Err(_) => Outcome::Failed,
    }
}

/// `v` once the current contig's rows are emitted: its queries are let go.
pub open spec fn after_emit(v: SyncView) -> SyncView {
    SyncView { queries: Seq::empty(), has_queries: false, collecting: None, ..v }
}

/// Keeping feature `a` of contig `d` in that contig's buffer; a buffer that
/// already holds `usize::MAX` features fails.
pub open spec fn buffer_step(v: SyncView, d: Seq<char>, a: Annotation) -> (Outcome, SyncView) {
    if recv(v.received, d).len() == usize::MAX {
        (Outcome::Failed, v)
    } else {
        (Outcome::ReadTarget, SyncView { received: add_recv(v.received, d, a), ..v })
    }
}

/// A decoded target feature `a` of contig `d` while the targets of contig
/// `c` are collected: kept if it is of `c`; if not, it ends a block of `c`
/// that has features, and is held for later, else it is buffered.
pub open spec fn place_step(v: SyncView, c: Seq<char>, d: Seq<char>, a: Annotation) -> (Outcome, SyncView) {
    if d == c {
        buffer_step(v, d, a)
    } else if recv(v.received, c).len() > 0 {
        (
            Outcome::Emit,
            after_emit(
                SyncView { held_target: Some((d, a)), received: v.received.remove(c), ..v },
            ),
        )
    } else {
        buffer_step(v, d, a)
    }
}

/// Starting on the targets of contig `c`: a buffered block of `c` is
/// emitted at once; else a held target is placed, the stream is read, or,
/// at its end, `c` is emitted with no targets.
pub open spec fn begin_step(v: SyncView, c: Seq<char>) -> (Outcome, SyncView) {
    if recv(v.received, c).len() > 0 {
        (Outcome::Emit, after_emit(SyncView { received: v.received.remove(c), ..v }))
    } else {
        let w = SyncView { collecting: Some(c), held_target: None, ..v };
        match v.held_target {
            Some(h) => place_step(w, c, h.0, h.1),
            None => if v.targets_done {
                (Outcome::Emit, after_emit(v))
            } else {
                (Outcome::ReadTarget, w)
            },
        }
    }
}

/// The step on `Resume`.
pub open spec fn resume_step(v: SyncView) -> (Outcome, SyncView) {
    if v.queries_done {
        (Outcome::Finished, v)
    } else if v.collecting is Some {
        (Outcome::ReadTarget, v)
    } else {
        match v.held_query {
            Some(q) => (
                Outcome::ReadQuery,
                SyncView {
                    current: Some(q.1),
                    queries: seq![query_entry(q.2)],
                    has_queries: true,
                    held_query: None,
                    ..v
                },
            ),
            None => (Outcome::ReadQuery, v),
        }
    }
}

/// The step at the end of the query stream.
pub open spec fn query_end_step(v: SyncView) -> (Outcome, SyncView) {
    if v.collecting is Some {
        (Outcome::ReadTarget, v)
    } else if !v.has_queries {
        (Outcome::Finished, SyncView { queries_done: true, ..v })
    } else {
        begin_step(SyncView { queries_done: true, ..v }, v.current->0)
    }
}

/// `s` with query coordinates `e` added once.
pub open spec fn with_query(s: Seq<(Key, usize)>, e: (Key, usize), t: Seq<(Key, usize)>) -> bool {
    if s.contains(e) {
        t == s
    } else {
        exists|p: int| #[trigger] crate::sorted::insert_position(s, e, p) && t == s.insert(p, e)
    }
}

/// The step on a well-formed query record of contig `d` at line `line`.
/// Where it adds the query, the new list is any `t` that `with_query`
/// allows, which the sorted list's insertion fixes.
pub open spec fn query_step(v: SyncView, line: usize, d: Seq<char>, iv: Interval, w: SyncView) -> (Outcome, SyncView) {
    if v.collecting is Some {
        (Outcome::ReadTarget, v)
    } else if v.current is None || v.current->0 == d {
        (Outcome::ReadQuery, w)
    } else if v.seen.contains(d) {
        (Outcome::Failed, v)
    } else {
        begin_step(
            SyncView {
                seen: v.seen.push(v.current->0),
                held_query: Some((line, d, iv)),
                ..v
            },
            v.current->0,
        )
    }
}

/// `w` is `v` with query `iv` of contig `d` added to the current contig.
pub open spec fn query_added(v: SyncView, d: Seq<char>, iv: Interval, w: SyncView) -> bool {
    &&& with_query(v.queries, query_entry(iv), w.queries)
    &&& w == SyncView { current: Some(d), queries: w.queries, has_queries: true, ..v }
}

/// The step at the end of the target stream.
pub open spec fn target_end_step(v: SyncView) -> (Outcome, SyncView) {
    match v.collecting {
        Some(c) => (
            Outcome::Emit,
            after_emit(SyncView { targets_done: true, received: v.received.remove(c), ..v }),
        ),
        None => (
            if v.queries_done {
                Outcome::Finished
            } else {
                Outcome::ReadQuery
            },
            SyncView { targets_done: true, ..v },
        ),
    }
}

/// The step on a decoded target feature `a` of contig `d`.
pub open spec fn target_step(v: SyncView, d: Seq<char>, a: Annotation) -> (Outcome, SyncView) {
    let w = SyncView { in_header: false, ..v };
    match v.collecting {
        Some(c) => place_step(w, c, d, a),
        None => buffer_step(w, d, a),
    }
}

impl Synchronizer {
    pub open spec fn view(&self) -> SyncView {
        SyncView {
            current: match self.current {
                Some(c) => Some(c@),
                None => None,
            },
            queries: list_entries(self.queries),
            has_queries: self.has_queries,
            held_query: match self.held_query {
                Some(q) => Some((q.line, q.contig@, q.interval)),
                None => None,
            },
            queries_done: self.queries_done,
            seen: seen_view(self.seen@),
            received: self.received@,
            collecting: match self.collecting {
                Some(g) => Some(g.contig@),
                None => None,
            },
            held_target: match self.held_target {
                Some(h) => Some((h.contig@, h.annotation)),
                None => None,
            },
            targets_done: self.targets_done,
            in_header: self.in_header,
        }
    }

    pub open spec fn wf(&self) -> bool {
        let m = self.received@;
        &&& keys_sorted(list_entries(self.queries))
        &&& forall|j: int|
            0 <= j < list_entries(self.queries).len() ==> interval_of(
                (#[trigger] list_entries(self.queries)[j]).0,
            ).wf() && list_entries(self.queries)[j].1 == 0
        &&& forall|j: int|
            0 <= j < self.future@.len() ==> (#[trigger] self.future@[j]).wf()
                && self.future@[j].annotations@ == recv(m, self.future@[j].contig@)
                && self.future@[j].annotations@.len() > 0
        &&& forall|i: int, j: int|
            0 <= i < self.future@.len() && 0 <= j < self.future@.len() && i != j ==> (#[trigger] self.future@[i]).contig@
                != (#[trigger] self.future@[j]).contig@
        &&& self.collecting matches Some(g) ==> {
            &&& g.wf()
            &&& g.annotations@ == recv(m, g.contig@)
            &&& self.current is Some && g.contig@ == self.current->0@
            &&& forall|j: int| 0 <= j < self.future@.len() ==> (#[trigger] self.future@[j]).contig@ != g.contig@
        }
        &&& forall|c: Seq<char>| #[trigger] m.dom().contains(c) ==> has_group(self.collecting, self.future@, c)
        &&& self.has_queries ==> self.current is Some
        &&& self.held_target matches Some(h) ==> h.annotation.interval.wf()
        &&& self.held_query matches Some(q) ==> q.interval.wf()
    }

    pub fn new() -> (r: Synchronizer)
        ensures
            r.wf(),
            r.current is None,
            r.seen@.len() == 0,
            list_entries(r.queries).len() == 0,
            r.received@ == Map::<Seq<char>, Seq<Annotation>>::empty(),
            r.view() == (SyncView {
                current: None,
                queries: Seq::empty(),
                has_queries: false,
                held_query: None,
                queries_done: false,
                seen: Seq::empty(),
                received: Map::empty(),
                collecting: None,
                held_target: None,
                targets_done: false,
                in_header: true,
            }),
    {
        let r = Synchronizer {
            current: None,
            queries: new_list(),
            has_queries: false,
            received: Ghost(Map::empty()),
            held_query: None,
            queries_done: false,
            seen: Vec::new(),
            future: Vec::new(),
            collecting: None,
            held_target: None,
            targets_done: false,
            in_header: true,
        };
        proof {
            assert(seen_view(r.seen@) =~= Seq::<Seq<char>>::empty());
        }
        r
    }

    /// Whether the query contig `c` was already finished.
    pub fn was_seen(&self, c: &String) -> (r: bool)
        ensures
            r == seen_view(self.seen@).contains(c@),
    {
        let mut i: usize = 0;
        while i < self.seen.len()
            invariant
                0 <= i <= self.seen@.len(),
                forall|j: int| 0 <= j < i ==> (#[trigger] self.seen@[j])@ != c@,
            decreases self.seen@.len() - i,
        {
            if self.seen[i] == *c {
                proof {
                    assert(seen_view(self.seen@)[i as int] == c@);
                }
                return true;
            }
            i = i + 1;
        }
        proof {
            if seen_view(self.seen@).contains(c@) {
                let j = choose|j: int| 0 <= j < seen_view(self.seen@).len() && seen_view(self.seen@)[j] == c@;
                assert(self.seen@[j]@ == c@);
            }
        }
        false
    }

    fn add_query(&mut self, iv: Interval)
        requires
            old(self).wf(),
            old(self).current is Some,
            iv.wf(),
        ensures
            final(self).wf(),
            with_query(list_entries(old(self).queries), query_entry(iv), list_entries(final(self).queries)),
            final(self).view() == (SyncView {
                queries: list_entries(final(self).queries),
                has_queries: true,
                ..old(self).view()
            }),
    {
        add_query_interval(&mut self.queries, iv);
        self.has_queries = true;
    }

    /// Annotates the current contig's queries with `group`, already taken out
    /// of the buffers, and resets the query side.
    fn emit(&mut self, group: TargetGroup) -> (r: Action)
        requires
            old(self).wf(),
            old(self).collecting is None,
            group.wf(),
            old(self).current is Some,
            group.contig@ == old(self).current->0@,
        ensures
            final(self).wf(),
            final(self).seen == old(self).seen,
            final(self).current == old(self).current,
            final(self).received == old(self).received,
            final(self).collecting is None,
            final(self).held_query == old(self).held_query,
            final(self).held_target == old(self).held_target,
            list_entries(final(self).queries).len() == 0,
            final(self).view() == after_emit(old(self).view()),
            r matches Action::Emit(rows) && emitted(
                old(self).current->0@,
                list_entries(old(self).queries),
                group.annotations@,
                rows@,
            ),
    {
        let contig = match &self.current {
            Some(c) => c.clone(),
            None => String::new(),
        };
        let rows = annotate_contig(&contig, &self.queries, &group);
        proof {
            assert(contig_rows(old(self).current->0@, list_entries(old(self).queries), group, rows@));
        }
        self.queries = new_list();
        self.has_queries = false;
        Action::Emit(rows)
    }

    /// Keeps a target of a contig other than the one being collected in that
    /// contig's buffer.
    fn buffer_target(&mut self, h: HeldTarget, line: usize) -> (r: Result<(), AnnoError>)
        requires
            old(self).wf(),
            h.annotation.interval.wf(),
            old(self).collecting matches Some(g) ==> g.contig@ != h.contig@,
        ensures
            final(self).wf(),
            final(self).seen == old(self).seen,
            final(self).current == old(self).current,
            final(self).queries == old(self).queries,
            final(self).collecting == old(self).collecting,
            final(self).held_query == old(self).held_query,
            final(self).held_target == old(self).held_target,
            r is Ok ==> final(self).received@ == add_recv(old(self).received@, h.contig@, h.annotation),
            r matches Err(e) ==> e == AnnoError::TooManyTargets(line),
            r is Err <==> recv(old(self).received@, h.contig@).len() == usize::MAX,
            r is Ok ==> final(self).view() == buffer_step(old(self).view(), h.contig@, h.annotation).1,
            r is Err ==> final(self).view() == old(self).view(),
    {
        let ghost m = self.received@;
        let mut i: usize = 0;
        while i < self.future.len()
            invariant
                0 <= i <= self.future@.len(),
                self.wf(),
                self.received@ == m,
                m == old(self).received@,
                self.future == old(self).future,
                self.held_target == old(self).held_target,
                self.has_queries == old(self).has_queries,
                self.targets_done == old(self).targets_done,
                self.queries_done == old(self).queries_done,
                self.in_header == old(self).in_header,
                self.view() == old(self).view(),
                self.seen == old(self).seen,
                self.current == old(self).current,
                self.queries == old(self).queries,
                self.collecting == old(self).collecting,
                self.held_query == old(self).held_query,
                self.held_target == old(self).held_target,
                h.annotation.interval.wf(),
                old(self).collecting matches Some(g) ==> g.contig@ != h.contig@,
                forall|j: int| 0 <= j < i ==> (#[trigger] self.future@[j]).contig@ != h.contig@,
            decreases self.future@.len() - i,
        {
            if self.future[i].contig == h.contig {
                if self.future[i].annotations.len() == usize::MAX {
                    return Err(AnnoError::TooManyTargets(line));
                }
                let ghost fut = self.future@;
                let mut g = self.future.remove(i);
                let ghost a = h.annotation;
                g.add(h.annotation);
                self.future.insert(i, g);
                self.received = Ghost(add_recv(m, h.contig@, a));
                proof {
                    assert(self.future@ =~= fut.update(i as int, g));
                    let m2 = self.received@;
                    assert forall|j: int| 0 <= j < self.future@.len() implies (#[trigger] self.future@[j]).wf()
                        && self.future@[j].annotations@ == recv(m2, self.future@[j].contig@) by {
                        if j != i {
                            assert(self.future@[j] == fut[j]);
                            assert(fut[j].contig@ != fut[i as int].contig@);
                        }
                    }
                    assert forall|c: Seq<char>| #[trigger] m2.dom().contains(c) implies has_group(self.collecting, self.future@, c) by {
                        if c == h.contig@ {
                            assert(self.future@[i as int].contig@ == c);
                        } else {
                            assert(m.dom().contains(c));
                            if !(self.collecting matches Some(g) && g.contig@ == c) {
                                let j = choose|j: int|
                                    0 <= j < fut.len() && (#[trigger] fut[j]).contig@ == c;
                                assert(self.future@[j].contig@ == c);
                            }
                        }
                    }
                    assert forall|x: int, y: int|
                        0 <= x < self.future@.len() && 0 <= y < self.future@.len() && x != y implies (#[trigger] self.future@[x]).contig@
                        != (#[trigger] self.future@[y]).contig@ by {
                        assert(fut[x].contig@ != fut[y].contig@);
                    }
                }
                return Ok(());
            }
            i = i + 1;
        }
        proof {
            if m.dom().contains(h.contig@) {
                assert(has_group(self.collecting, self.future@, h.contig@));
                let j = choose|j: int|
                    0 <= j < self.future@.len() && (#[trigger] self.future@[j]).contig@ == h.contig@;
                assert(false);
            }
        }
        let ghost fut = self.future@;
        let ghost a = h.annotation;
        let mut g = TargetGroup::new(h.contig);
        g.add(h.annotation);
        self.future.push(g);
        self.received = Ghost(add_recv(m, h.contig@, a));
        proof {
            let m2 = self.received@;
            assert(recv(m, h.contig@) =~= Seq::<Annotation>::empty());
            assert(g.annotations@ =~= seq![a]);
            assert(recv(m2, h.contig@) =~= seq![a]);
            assert forall|j: int| 0 <= j < self.future@.len() implies (#[trigger] self.future@[j]).wf()
                && self.future@[j].annotations@ == recv(m2, self.future@[j].contig@) by {
                if j < fut.len() {
                    assert(self.future@[j] == fut[j]);
                }
            }
            assert forall|c: Seq<char>| #[trigger] m2.dom().contains(c) implies has_group(self.collecting, self.future@, c) by {
                if c == h.contig@ {
                    assert(self.future@[fut.len() as int].contig@ == c);
                } else {
                    assert(m.dom().contains(c));
                    if !(self.collecting matches Some(g) && g.contig@ == c) {
                        let j = choose|j: int| 0 <= j < fut.len() && (#[trigger] fut[j]).contig@ == c;
                        assert(self.future@[j].contig@ == c);
                    }
                }
            }
            assert forall|x: int, y: int|
                0 <= x < self.future@.len() && 0 <= y < self.future@.len() && x != y implies (#[trigger] self.future@[x]).contig@
                != (#[trigger] self.future@[y]).contig@ by {
                if x < fut.len() && y < fut.len() {
                    assert(fut[x].contig@ != fut[y].contig@);
                } else if x < fut.len() {
                    assert(self.future@[x] == fut[x]);
                } else if y < fut.len() {
                    assert(self.future@[y] == fut[y]);
                }
            }
        }
        Ok(())
    }

    /// Places one target feature while the current contig's targets are
    /// collected: into its group, into the buffer of another contig, or, when
    /// it ends the current contig's block, aside for the next contig.
    fn place_target(&mut self, h: HeldTarget, line: usize) -> (r: Result<Action, AnnoError>)
        requires
            old(self).wf(),
            old(self).collecting is Some,
            h.annotation.interval.wf(),
        ensures
            final(self).wf(),
            r matches Err(e) ==> e == AnnoError::TooManyTargets(line),
            outcome_of(r) == place_step(
                old(self).view(),
                old(self).view().collecting->0,
                h.contig@,
                h.annotation,
            ).0,
            r is Ok ==> final(self).view() == place_step(
                old(self).view(),
                old(self).view().collecting->0,
                h.contig@,
                h.annotation,
            ).1,
            r matches Ok(Action::Emit(rows)) ==> emitted(
                old(self).current->0@,
                list_entries(old(self).queries),
                recv(old(self).received@, old(self).current->0@),
                rows@,
            ),
    {
        let ghost m = self.received@;
        let mut group = match self.collecting.take() {
            Some(g) => g,
            None => {
                return Ok(Action::ReadTarget);
            },
        };
        if h.contig == group.contig {
            if group.annotations.len() == usize::MAX {
                self.collecting = Some(group);
                return Err(AnnoError::TooManyTargets(line));
            }
            let ghost a = h.annotation;
            group.add(h.annotation);
            self.collecting = Some(group);
            self.received = Ghost(add_recv(m, h.contig@, a));
            proof {
                let m2 = self.received@;
                assert forall|j: int| 0 <= j < self.future@.len() implies (#[trigger] self.future@[j]).wf()
                    && self.future@[j].annotations@ == recv(m2, self.future@[j].contig@) by {
                }
                assert forall|c: Seq<char>| #[trigger] m2.dom().contains(c) implies has_group(self.collecting, self.future@, c) by {
                    if c != h.contig@ {
                        assert(m.dom().contains(c));
                    }
                }
            }
            return Ok(Action::ReadTarget);
        }
        if group.annotations.len() > 0 {
            let ghost c = group.contig@;
            self.received = Ghost(m.remove(c));
            proof {
                let m2 = self.received@;
                assert forall|j: int| 0 <= j < self.future@.len() implies (#[trigger] self.future@[j]).wf()
                    && self.future@[j].annotations@ == recv(m2, self.future@[j].contig@) by {
                }
                assert forall|d: Seq<char>| #[trigger] m2.dom().contains(d) implies has_group(self.collecting, self.future@, d) by {
                    assert(m.dom().contains(d));
                    assert(has_group(old(self).collecting, old(self).future@, d));
                }
            }
            self.held_target = Some(h);
            return Ok(self.emit(group));
        }
        self.collecting = Some(group);
        match self.buffer_target(h, line) {
            Ok(()) => Ok(Action::ReadTarget),
            Err(e) => Err(e),
        }
    }

    /// Starts on the targets of the current contig: from the buffer if they
    /// were read ahead, else from the target stream.
    fn begin_targets(&mut self, line: usize) -> (r: Result<Action, AnnoError>)
        requires
            old(self).wf(),
            old(self).current is Some,
            old(self).collecting is None,
        ensures
            final(self).wf(),
            r matches Err(e) ==> e == AnnoError::TooManyTargets(line),
            outcome_of(r) == begin_step(old(self).view(), old(self).view().current->0).0,
            r is Ok ==> final(self).view() == begin_step(old(self).view(), old(self).view().current->0).1,
            r matches Ok(Action::Emit(rows)) ==> emitted(
                old(self).current->0@,
                list_entries(old(self).queries),
                recv(old(self).received@, old(self).current->0@),
                rows@,
            ),
    {
        let ghost m = self.received@;
        let contig = match &self.current {
            Some(c) => c.clone(),
            None => String::new(),
        };
        let mut i: usize = 0;
        while i < self.future.len()
            invariant
                0 <= i <= self.future@.len(),
                self.wf(),
                self.received@ == m,
                m == old(self).received@,
                self.future == old(self).future,
                self.held_target == old(self).held_target,
                self.has_queries == old(self).has_queries,
                self.targets_done == old(self).targets_done,
                self.queries_done == old(self).queries_done,
                self.in_header == old(self).in_header,
                self.view() == old(self).view(),
                self.seen == old(self).seen,
                self.current == old(self).current,
                self.queries == old(self).queries,
                self.held_query == old(self).held_query,
                self.collecting is None,
                self.current is Some,
                contig@ == old(self).current->0@,
                forall|j: int| 0 <= j < i ==> (#[trigger] self.future@[j]).contig@ != contig@,
            decreases self.future@.len() - i,
        {
            if self.future[i].contig == contig {
                let ghost fut = self.future@;
                let g = self.future.remove(i);
                self.received = Ghost(m.remove(contig@));
                proof {
                    let m2 = self.received@;
                    assert forall|j: int| 0 <= j < self.future@.len() implies (#[trigger] self.future@[j]).wf()
                        && self.future@[j].annotations@ == recv(m2, self.future@[j].contig@) by {
                        if j < i {
                            assert(self.future@[j] == fut[j]);
                            assert(fut[j].contig@ != fut[i as int].contig@);
                        } else {
                            assert(self.future@[j] == fut[j + 1]);
                            assert(fut[j + 1].contig@ != fut[i as int].contig@);
                        }
                    }
                    assert forall|d: Seq<char>| #[trigger] m2.dom().contains(d) implies has_group(self.collecting, self.future@, d) by {
                        assert(m.dom().contains(d));
                        let j = choose|j: int| 0 <= j < fut.len() && (#[trigger] fut[j]).contig@ == d;
                        if j < i {
                            assert(self.future@[j] == fut[j]);
                        } else {
                            assert(j != i);
                            assert(self.future@[j - 1] == fut[j]);
                        }
                    }
                    assert forall|x: int, y: int|
                        0 <= x < self.future@.len() && 0 <= y < self.future@.len() && x != y implies (#[trigger] self.future@[x]).contig@
                        != (#[trigger] self.future@[y]).contig@ by {
                        let fx = if x < i { x } else { x + 1 };
                        let fy = if y < i { y } else { y + 1 };
                        assert(self.future@[x] == fut[fx]);
                        assert(self.future@[y] == fut[fy]);
                        assert(fut[fx].contig@ != fut[fy].contig@);
                    }
                }
                return Ok(self.emit(g));
            }
            i = i + 1;
        }
        proof {
            if m.dom().contains(contig@) {
                assert(has_group(self.collecting, self.future@, contig@));
                let j = choose|j: int|
                    0 <= j < self.future@.len() && (#[trigger] self.future@[j]).contig@ == contig@;
                assert(false);
            }
            assert(recv(m, contig@) =~= Seq::<Annotation>::empty());
        }
        self.collecting = Some(TargetGroup::new(contig));
        proof {
            let m2 = self.received@;
            let g = self.collecting->0;
            assert(g.annotations@ == recv(m2, g.contig@));
            assert(forall|j: int| 0 <= j < self.future@.len() ==> (#[trigger] self.future@[j]).contig@ != g.contig@);
            assert forall|d: Seq<char>| #[trigger] m2.dom().contains(d) implies has_group(self.collecting, self.future@, d) by {
                assert(has_group(old(self).collecting, old(self).future@, d));
            }
            assert(g.wf());
            assert(self.current is Some && g.contig@ == self.current->0@);
        }
        match self.held_target.take() {
            Some(h) => self.place_target(h, line),
            None => {
                if self.targets_done {
                    proof {
                        assert(m.remove(contig@) =~= m);
                    }
                    match self.collecting.take() {
                        Some(g) => Ok(self.emit(g)),
                        None => Ok(Action::ReadTarget),
                    }
                } else {
                    Ok(Action::ReadTarget)
                }
            },
        }
    }

    /// Takes the next input and says what to do next.
    ///
    /// A query record of the current contig (or the first one) is added; one
    /// of another contig ends the current contig's block, unless that contig
    /// was already finished, which is an error. A target line is decoded and
    /// kept with the features received for its contig; a malformed one is an
    /// error. When a contig has all its queries and targets, its rows are
    /// emitted. A query stream with no records at all ends the run with no
    /// rows. Queries handed while targets are asked for are not taken.
    ///
    /// What each input does to the state, and what is asked next, is given
    /// exactly by `resume_step`, `query_step`, `query_end_step`,
    /// `target_step` and `target_end_step` over `view`.
    pub fn step(&mut self, input: Input) -> (r: Result<Action, AnnoError>)
        requires
            old(self).wf(),
        ensures
            final(self).wf(),
            r matches Ok(Action::Emit(rows)) ==> old(self).current is Some && emitted(
                old(self).current->0@,
                list_entries(old(self).queries),
                recv(old(self).received@, old(self).current->0@),
                rows@,
            ),
            input matches Input::Resume ==> outcome_of(r) == resume_step(old(self).view()).0
                && final(self).view() == resume_step(old(self).view()).1,
            input matches Input::Query(None) ==> {
                &&& outcome_of(r) == query_end_step(old(self).view()).0
                &&& r is Ok ==> final(self).view() == query_end_step(old(self).view()).1
                &&& r matches Err(e) ==> e is TooManyTargets
            },
            input matches Input::Query(Some(q)) ==> {
                let v = old(self).view();
                let w = final(self).view();
                &&& !q.interval.wf() ==> (r matches Err(AnnoError::Parse(l)) && l == q.line)
                &&& q.interval.wf() ==> {
                    &&& outcome_of(r) == query_step(v, q.line, q.contig@, q.interval, w).0
                    &&& r is Ok ==> w == query_step(v, q.line, q.contig@, q.interval, w).1
                    &&& (v.collecting is None && (v.current is None || v.current->0 == q.contig@))
                        ==> query_added(v, q.contig@, q.interval, w)
                    &&& r matches Err(AnnoError::OutOfOrderContig(name, l)) ==> name@ == q.contig@
                        && l == q.line
                    &&& r matches Err(AnnoError::TooManyTargets(l)) ==> l == q.line
                    &&& r matches Err(e) ==> e is OutOfOrderContig || e is TooManyTargets
                }
            },
            input matches Input::Target(None) ==> outcome_of(r) == target_end_step(old(self).view()).0
                && final(self).view() == target_end_step(old(self).view()).1,
            input matches Input::Target(Some(t)) ==> {
                let f = split_fields(t.text@, '\t');
                let v = old(self).view();
                &&& v.in_header && is_comment(t.text@) ==> (r matches Ok(Action::ReadTarget))
                    && final(self).view() == v
                &&& !(v.in_header && is_comment(t.text@)) ==> {
                    &&& (r matches Err(AnnoError::Parse(l)) && l == t.line) <==> !gff_fields_ok(f)
                    &&& gff_fields_ok(f) ==> ((r matches Err(AnnoError::MalformedAttribute(l, frag))
                        && l == t.line && attribute_pairs(f[8]) == Err::<
                        Seq<(Seq<char>, Seq<char>)>,
                        Seq<char>,
                    >(frag@)) <==> attribute_pairs(f[8]) is Err)
                    &&& gff_fields_ok(f) && attribute_pairs(f[8]) is Ok ==> {
                        &&& r matches Err(e) ==> e == AnnoError::TooManyTargets(t.line)
                        &&& exists|a: Annotation|
                            #[trigger] decoded_annotation(a, f) && outcome_of(r) == target_step(
                                v,
                                f[0],
                                a,
                            ).0 && (r is Ok ==> final(self).view() == target_step(v, f[0], a).1)
                    }
                }
            },
    {
        match input {
            Input::Resume => {
                if self.queries_done {
                    return Ok(Action::Finished);
                }
                if self.collecting.is_some() {
                    return Ok(Action::ReadTarget);
                }
                match self.held_query.take() {
                    Some(q) => {
                        self.queries = new_list();
                        self.current = Some(q.contig);
                        let ghost iv = q.interval;
                        self.add_query(q.interval);
                        proof {
                            assert(Seq::<(Key, usize)>::empty().insert(0, query_entry(iv)) =~= seq![
                                query_entry(iv),
                            ]);
                        }
                        Ok(Action::ReadQuery)
                    },
                    None => Ok(Action::ReadQuery),
                }
            },
            Input::Query(None) => {
                if self.collecting.is_some() {
                    return Ok(Action::ReadTarget);
                }
                self.queries_done = true;
                if self.has_queries {
                    self.begin_targets(0)
                } else {
                    Ok(Action::Finished)
                }
            },
            Input::Query(Some(q)) => {
                if !(q.interval.start <= q.interval.end) {
                    return Err(AnnoError::Parse(q.line));
                }
                if self.collecting.is_some() {
                    return Ok(Action::ReadTarget);
                }
                let same = match &self.current {
                    Some(c) => *c == q.contig,
                    None => true,
                };
                if same {
                    if self.current.is_none() {
                        self.current = Some(q.contig);
                    }
                    self.add_query(q.interval);
                    return Ok(Action::ReadQuery);
                }
                if self.was_seen(&q.contig) {
                    return Err(AnnoError::OutOfOrderContig(q.contig, q.line));
                }
                let c = match &self.current {
                    Some(c) => c.clone(),
                    None => String::new(),
                };
                let ghost before = self.seen@;
                self.seen.push(c);
                proof {
                    assert(seen_view(self.seen@) =~= seen_view(before).push(c@));
                }
                let line = q.line;
                self.held_query = Some(q);
                self.begin_targets(line)
            },
            Input::Target(None) => {
                self.targets_done = true;
                match self.collecting.take() {
                    Some(g) => {
                        let ghost m = self.received@;
                        self.received = Ghost(m.remove(g.contig@));
                        proof {
                            let m2 = self.received@;
                            assert forall|j: int| 0 <= j < self.future@.len() implies (#[trigger] self.future@[j]).wf()
                                && self.future@[j].annotations@ == recv(m2, self.future@[j].contig@) by {
                            }
                            assert forall|d: Seq<char>| #[trigger] m2.dom().contains(d) implies has_group(self.collecting, self.future@, d) by {
                                assert(m.dom().contains(d));
                            }
                        }
                        Ok(self.emit(g))
                    },
                    None => if self.queries_done {
                        Ok(Action::Finished)
                    } else {
                        Ok(Action::ReadQuery)
                    },
                }
            },
            Input::Target(Some(t)) => {
                let chars = chars_of(t.text.as_str());
                if self.in_header && chars.len() > 0 && chars[0] == '#' {
                    return Ok(Action::ReadTarget);
                }
                self.in_header = false;
                let line = match GffLine::from_line(t.text.as_str()) {
                    Some(g) => g,
                    None => return Err(AnnoError::Parse(t.line)),
                };
                let annotation = match Annotation::from_gff_line(&line) {
                    Ok(a) => a,
                    Err(frag) => return Err(AnnoError::MalformedAttribute(t.line, frag)),
                };
                let h = HeldTarget { contig: line.contig, annotation };
                proof {
                    assert(decoded_annotation(h.annotation, split_fields(t.text@, '\t')));
                }
                let is_collecting = match &self.collecting {
                    Some(g) => true,
                    None => false,
                };
                if is_collecting {
                    self.place_target(h, t.line)
                } else {
                    match self.buffer_target(h, t.line) {
                        Ok(()) => Ok(Action::ReadTarget),
                        Err(e) => Err(e),
                    }
                }
            },
        }
    }
}

} // verus!
