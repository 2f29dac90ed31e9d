use vstd::prelude::*;

use crate::classify::{classified, delivered, event_of};
use crate::debounce::{
    earliest, fresh_entry, has_path, index_of, paths_unique, DebounceState, Pending,
};
use crate::kinds::{EventKind, KindSet};
use crate::record::{LogicalEvent, RawKind, RawRecord};
use crate::table::{lemma_next, lemma_swept};

verus! {

/// The table after each record is taken at its time, every sweep due at
/// that time being made just before.
pub open spec fn run(s: DebounceState, recs: Seq<RawRecord>, times: Seq<u64>) -> DebounceState
    decreases recs.len(),
{
    if recs.len() == 0 || recs.len() != times.len() {
        s
    } else {
        run(s, recs.drop_last(), times.drop_last()).swept(times.last()).next(recs.last(), times.last())
    }
}

/// What such a run emits on the way: settled entries and forced-out ones.
pub open spec fn run_emitted(s: DebounceState, recs: Seq<RawRecord>, times: Seq<u64>) -> Seq<Pending>
    decreases recs.len(),
{
    if recs.len() == 0 || recs.len() != times.len() {
        Seq::empty()
    } else {
        let s1 = run(s, recs.drop_last(), times.drop_last());
        let t = times.last();
        let s2 = s1.swept(t);
        let forced = if s2.evicts(recs.last(), t) {
            seq![s2.entries[earliest(s2.entries)]]
        } else {
            Seq::empty()
        };
        run_emitted(s, recs.drop_last(), times.drop_last()) + s1.due(t) + forced
    }
}

/// Write records for path `p` whose times, in order, span less than `q`.
pub open spec fn write_burst(p: Seq<char>, recs: Seq<RawRecord>, times: Seq<u64>, q: u64) -> bool {
    &&& recs.len() == times.len()
    &&& recs.len() > 0
    &&& forall|i: int| 0 <= i < recs.len() ==> (#[trigger] recs[i]).kind == RawKind::Write && recs[i].path@ == p
    &&& forall|i: int, j: int| 0 <= i <= j < times.len() ==> times[i] <= times[j]
    &&& times.last() < times[0] + q
    &&& times.last() + q <= u64::MAX
}

proof fn lemma_has_path_add(a: Seq<Pending>, b: Seq<Pending>, p: Seq<char>)
    ensures
        has_path(a + b, p) ==> has_path(a, p) || has_path(b, p),
{
    if has_path(a + b, p) {
        let k = choose|k: int| 0 <= k < (a + b).len() && #[trigger] (a + b)[k].path@ == p;
        if k < a.len() {
            assert(a[k] == (a + b)[k]);
        } else {
            assert(b[k - a.len()] == (a + b)[k]);
        }
    }
}

proof fn lemma_run_keeps_config(s: DebounceState, recs: Seq<RawRecord>, times: Seq<u64>)
    ensures
        run(s, recs, times).quiescence == s.quiescence,
        run(s, recs, times).capacity == s.capacity,
    decreases recs.len(),
{
    if recs.len() > 0 && recs.len() == times.len() {
        lemma_run_keeps_config(s, recs.drop_last(), times.drop_last());
    }
}

proof fn lemma_burst_prefix(s: DebounceState, p: Seq<char>, recs: Seq<RawRecord>, times: Seq<u64>)
    requires
        s.wf(),
        !has_path(s.entries, p),
        write_burst(p, recs, times, s.quiescence),
    ensures
        run(s, recs, times).wf(),
        has_path(run(s, recs, times).entries, p),
        run(s, recs, times).entry_of(p) == fresh_entry(recs.last(), (times.last() + s.quiescence) as u64),
        !has_path(run_emitted(s, recs, times), p),
    decreases recs.len(),
{
    let n = recs.len();
    let q = s.quiescence;
    let r = recs.last();
    let t = times.last();
    assert(recs[n - 1] == r);
    let pre_r = recs.drop_last();
    let pre_t = times.drop_last();
    let s1 = run(s, pre_r, pre_t);
    lemma_run_keeps_config(s, pre_r, pre_t);
    if n == 1 {
        assert(s1 == s);
        assert(run_emitted(s, pre_r, pre_t) =~= Seq::<Pending>::empty());
    } else {
        assert(write_burst(p, pre_r, pre_t, q)) by {
            assert forall|i: int| 0 <= i < pre_r.len() implies (#[trigger] pre_r[i]).kind == RawKind::Write
                && pre_r[i].path@ == p by {
                assert(pre_r[i] == recs[i]);
            }
            assert(pre_t.last() == times[n - 2]);
            assert(times[n - 2] <= times[n - 1]);
        }
        lemma_burst_prefix(s, p, pre_r, pre_t);
        assert(times[0] <= times[n - 2]);
        assert(pre_t.last() == times[n - 2]);
    }
    lemma_swept(s1, p, t);
    let s2 = s1.swept(t);
    lemma_next(s2, r, t);
    let forced = if s2.evicts(r, t) {
        seq![s2.entries[earliest(s2.entries)]]
    } else {
        Seq::<Pending>::empty()
    };
    if has_path(forced, p) {
        let k = choose|k: int| 0 <= k < forced.len() && #[trigger] forced[k].path@ == p;
    }
    lemma_has_path_add(run_emitted(s, pre_r, pre_t), s1.due(t), p);
    lemma_has_path_add(run_emitted(s, pre_r, pre_t) + s1.due(t), forced, p);
}

/// Writes to one path arriving within less than the quiescence window
/// coalesce: nothing for the path leaves during the burst, and a sweep emits
/// exactly one `Write` event for it once the window after the last write has
/// passed, and none before.
pub proof fn lemma_burst_coalesces(
    s: DebounceState,
    p: Seq<char>,
    recs: Seq<RawRecord>,
    times: Seq<u64>,
    later: u64,
)
    requires
        s.wf(),
        !has_path(s.entries, p),
        write_burst(p, recs, times, s.quiescence),
    ensures
        !has_path(run_emitted(s, recs, times), p),
        later < times.last() + s.quiescence ==> !has_path(run(s, recs, times).due(later), p),
        times.last() + s.quiescence <= later ==> {
            let due = run(s, recs, times).due(later);
            &&& has_path(due, p)
            &&& paths_unique(due)
            &&& classified(due[index_of(due, p)]) == Some(
                event_of(EventKind::Write, recs.last().path, None),
            )
        },
{
    lemma_burst_prefix(s, p, recs, times);
    lemma_swept(run(s, recs, times), p, later);
}

/// A record kind that maps one to one onto a logical event kind.
pub open spec fn plain_kind(k: RawKind) -> bool {
    k == RawKind::Create || k == RawKind::Write || k == RawKind::Chmod || k == RawKind::Remove
}

/// Records for path `p` of plain kinds, each at least `q` after the one
/// before it.
pub open spec fn spaced_records(p: Seq<char>, recs: Seq<RawRecord>, times: Seq<u64>, q: u64) -> bool {
    &&& recs.len() == times.len()
    &&& recs.len() > 0
    &&& forall|i: int| 0 <= i < recs.len() ==> plain_kind((#[trigger] recs[i]).kind) && recs[i].path@ == p
    &&& forall|i: int| 0 <= i < times.len() - 1 ==> #[trigger] times[i] + q <= times[i + 1]
    &&& times.last() + q <= u64::MAX
}

proof fn lemma_spaced_prefix(s: DebounceState, p: Seq<char>, recs: Seq<RawRecord>, times: Seq<u64>, k: int)
    requires
        s.wf(),
        !has_path(s.entries, p),
        spaced_records(p, recs, times, s.quiescence),
        1 <= k <= recs.len(),
    ensures
        run(s, recs.take(k), times.take(k)).wf(),
        run(s, recs.take(k), times.take(k)).quiescence == s.quiescence,
        has_path(run(s, recs.take(k), times.take(k)).entries, p),
        run(s, recs.take(k), times.take(k)).entry_of(p) == fresh_entry(
            recs[k - 1],
            (times[k - 1] + s.quiescence) as u64,
        ),
    decreases k,
{
    let q = s.quiescence;
    let rk = recs.take(k);
    let tk = times.take(k);
    assert(rk.drop_last() =~= recs.take(k - 1));
    assert(tk.drop_last() =~= times.take(k - 1));
    assert(rk.last() == recs[k - 1]);
    assert(tk.last() == times[k - 1]);
    let s1 = run(s, recs.take(k - 1), times.take(k - 1));
    lemma_run_keeps_config(s, recs.take(k - 1), times.take(k - 1));
    // every time of the run is at most the last one
    assert forall|i: int| 0 <= i < times.len() implies #[trigger] times[i] <= times.last() by {
        lemma_times_ordered(times, q, i);
    }
    if k == 1 {
        assert(recs.take(0) =~= Seq::<RawRecord>::empty());
        assert(s1 == s);
    } else {
        lemma_spaced_prefix(s, p, recs, times, k - 1);
        assert(times[k - 2] + q <= times[k - 1]);
    }
    let t = times[k - 1];
    let r = recs[k - 1];
    assert(plain_kind(r.kind));
    lemma_swept(s1, p, t);
    lemma_next(s1.swept(t), r, t);
}

proof fn lemma_times_ordered(times: Seq<u64>, q: u64, i: int)
    requires
        times.len() > 0,
        0 <= i < times.len(),
        forall|j: int| 0 <= j < times.len() - 1 ==> #[trigger] times[j] + q <= times[j + 1],
    ensures
        times[i] <= times.last(),
    decreases times.len() - i,
{
    if i < times.len() - 1 {
        assert(times[i] + q <= times[i + 1]);
        lemma_times_ordered(times, q, i + 1);
    }
}

/// Records for one path that each arrive at least the quiescence window
/// after the one before give one event each: the sweep at the arrival of
/// the next record emits the event of the one before, and once the window
/// after the last has passed a sweep emits the last one's.
pub proof fn lemma_spaced_records_separate(
    s: DebounceState,
    p: Seq<char>,
    recs: Seq<RawRecord>,
    times: Seq<u64>,
    later: u64,
)
    requires
        s.wf(),
        !has_path(s.entries, p),
        spaced_records(p, recs, times, s.quiescence),
        times.last() + s.quiescence <= later,
    ensures
        forall|i: int|
            0 <= i < recs.len() - 1 ==> {
                let due = #[trigger] run(s, recs.take(i + 1), times.take(i + 1)).due(times[i + 1]);
                &&& has_path(due, p)
                &&& paths_unique(due)
                &&& classified(due[index_of(due, p)]) == Some(
                    event_of(kind_of(recs[i].kind), recs[i].path, None),
                )
            },
        ({
            let due = run(s, recs, times).due(later);
            &&& has_path(due, p)
            &&& paths_unique(due)
            &&& classified(due[index_of(due, p)]) == Some(
                event_of(kind_of(recs.last().kind), recs.last().path, None),
            )
        }),
{
    let q = s.quiescence;
    assert forall|i: int| 0 <= i < recs.len() - 1 implies {
        let due = #[trigger] run(s, recs.take(i + 1), times.take(i + 1)).due(times[i + 1]);
        &&& has_path(due, p)
        &&& paths_unique(due)
        &&& classified(due[index_of(due, p)]) == Some(event_of(kind_of(recs[i].kind), recs[i].path, None))
    } by {
        lemma_spaced_prefix(s, p, recs, times, i + 1);
        assert(times[i] + q <= times[i + 1]);
        assert(plain_kind(recs[i].kind));
        lemma_swept(run(s, recs.take(i + 1), times.take(i + 1)), p, times[i + 1]);
    }
    let n = recs.len() as int;
    lemma_spaced_prefix(s, p, recs, times, n);
    assert(recs.take(n) =~= recs);
    assert(times.take(n) =~= times);
    assert(plain_kind(recs[n - 1].kind));
    lemma_swept(run(s, recs, times), p, later);
}

/// The logical kind of a plain record kind.
pub open spec fn kind_of(k: RawKind) -> EventKind {
    match k {
        RawKind::Create => EventKind::Create,
        RawKind::Write => EventKind::Write,
        RawKind::Chmod => EventKind::Chmod,
        _ => EventKind::Remove,
    }
}

/// A `RenameFrom(a)` followed within the quiescence window by a
/// `RenameTo(b)` leaves one entry, for `a`, that settles into exactly one
/// `Rename` event from `a` to `b`; no entry is left for `b`.
pub proof fn lemma_rename_pairs(
    s: DebounceState,
    from: RawRecord,
    t0: u64,
    to: RawRecord,
    t1: u64,
    later: u64,
)
    requires
        s.wf(),
        from.kind == RawKind::RenameFrom,
        from.secondary_path is None,
        to.kind == RawKind::RenameTo,
        from.path@ != to.path@,
        !has_path(s.entries, from.path@),
        !has_path(s.entries, to.path@),
        t0 <= t1 < t0 + s.quiescence,
        t1 + s.quiescence <= later,
    ensures
        ({
            let s1 = s.swept(t0).next(from, t0);
            let s2 = s1.swept(t1).next(to, t1);
            let due = s2.due(later);
            &&& !has_path(s1.due(t1), from.path@)
            &&& !has_path(s2.entries, to.path@)
            &&& has_path(due, from.path@)
            &&& !has_path(due, to.path@)
            &&& paths_unique(due)
            &&& classified(due[index_of(due, from.path@)]) == Some(
                event_of(EventKind::Rename, from.path, Some(to.path)),
            )
        }),
{
    let a = from.path@;
    let b = to.path@;
    lemma_swept(s, a, t0);
    lemma_swept(s, b, t0);
    let s0 = s.swept(t0);
    lemma_next(s0, from, t0);
    let s1 = s0.next(from, t0);
    assert(!has_path(s1.entries, b));
    lemma_swept(s1, a, t1);
    lemma_swept(s1, b, t1);
    let m = s1.swept(t1);
    assert(m.pairs(to, t1));
    lemma_next(m, to, t1);
    let s2 = m.next(to, t1);
    lemma_swept(s2, a, later);
    lemma_swept(s2, b, later);
}

/// A `RenameFrom(a)` that no `RenameTo` follows settles into exactly one
/// `Remove` event for `a`.
pub proof fn lemma_lone_rename_is_remove(s: DebounceState, from: RawRecord, t0: u64, later: u64)
    requires
        s.wf(),
        from.kind == RawKind::RenameFrom,
        from.secondary_path is None,
        !has_path(s.entries, from.path@),
        t0 + s.quiescence <= later,
    ensures
        ({
            let due = s.swept(t0).next(from, t0).due(later);
            &&& has_path(due, from.path@)
            &&& paths_unique(due)
            &&& classified(due[index_of(due, from.path@)]) == Some(
                event_of(EventKind::Remove, from.path, None),
            )
        }),
{
    let a = from.path@;
    lemma_swept(s, a, t0);
    let s0 = s.swept(t0);
    lemma_next(s0, from, t0);
    lemma_swept(s0.next(from, t0), a, later);
}

/// With only `Write` requested, the filter drops every other kind and
/// passes each `Write` event unchanged.
pub proof fn lemma_write_only_filter(s: Seq<LogicalEvent>)
    ensures
        forall|e: LogicalEvent|
            #[trigger] KindSet::only(EventKind::Write).pass(e) == if e.kind == EventKind::Write {
                Some(e)
            } else {
                None
            },
        KindSet::only(EventKind::Write).passing(s) == s.filter(
            |e: LogicalEvent| e.kind == EventKind::Write,
        ),
{
    let k = KindSet::only(EventKind::Write);
    assert((|e: LogicalEvent| k.has(e.kind)) =~= (|e: LogicalEvent| e.kind == EventKind::Write));
}

proof fn lemma_filter_all(s: Seq<LogicalEvent>, pred: spec_fn(LogicalEvent) -> bool)
    requires
        forall|e: LogicalEvent| #[trigger] pred(e),
    ensures
        s.filter(pred) == s,
    decreases s.len(),
{
    if s.len() > 0 {
        lemma_filter_all(s.drop_last(), pred);
        s.drop_last().lemma_filter_push(s.last(), pred);
        assert(s.drop_last().push(s.last()) =~= s);
    }
}

/// With all five kinds requested every event passes unchanged.
pub proof fn lemma_all_kinds_pass(s: Seq<LogicalEvent>)
    ensures
        forall|e: LogicalEvent| #[trigger] KindSet::full().pass(e) == Some(e),
        KindSet::full().passing(s) == s,
{
    let k = KindSet::full();
    let pred = |e: LogicalEvent| k.has(e.kind);
    assert forall|e: LogicalEvent| #[trigger] pred(e) by {
        assert(k.has(e.kind));
    }
    lemma_filter_all(s, pred);
}

/// Nothing of a kind that was not requested is ever delivered.
pub proof fn lemma_delivered_requested(k: KindSet, due: Seq<Pending>)
    ensures
        forall|i: int| 0 <= i < delivered(k, due).len() ==> k.has(#[trigger] delivered(k, due)[i].kind),
    decreases due.len(),
{
    if due.len() > 0 {
        lemma_delivered_requested(k, due.drop_last());
    }
}

} // verus!
