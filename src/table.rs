use vstd::prelude::*;

use crate::debounce::{
    deadline_after, due_at, earliest, fresh_entry, has_path, index_of, lemma_earliest_is_min, paired_entry,
    paths_unique, pending_at, updated_entry, DebounceState, Pending,
};
use crate::record::RawRecord;

verus! {

pub proof fn lemma_index_of(entries: Seq<Pending>, p: Seq<char>, i: int)
    requires
        paths_unique(entries),
        0 <= i < entries.len(),
        entries[i].path@ == p,
    ensures
        has_path(entries, p),
        index_of(entries, p) == i,
{
    assert(has_path(entries, p));
    let j = index_of(entries, p);
    assert(entries[j].path@ == entries[i].path@);
}

pub proof fn lemma_update_same_path(entries: Seq<Pending>, i: int, e: Pending)
    requires
        paths_unique(entries),
        0 <= i < entries.len(),
        entries[i].path@ == e.path@,
    ensures
        paths_unique(entries.update(i, e)),
        forall|p: Seq<char>| has_path(entries.update(i, e), p) == has_path(entries, p),
        index_of(entries.update(i, e), e.path@) == i,
{
    let u = entries.update(i, e);
    assert forall|a: int, b: int|
        0 <= a < u.len() && 0 <= b < u.len() && #[trigger] u[a].path@ == #[trigger] u[b].path@ implies a == b by {
        assert(entries[a].path@ == u[a].path@);
        assert(entries[b].path@ == u[b].path@);
    }
    assert forall|p: Seq<char>| has_path(u, p) == has_path(entries, p) by {
        if has_path(u, p) {
            let j = choose|j: int| 0 <= j < u.len() && #[trigger] u[j].path@ == p;
            assert(entries[j].path@ == p);
        }
        if has_path(entries, p) {
            let j = choose|j: int| 0 <= j < entries.len() && #[trigger] entries[j].path@ == p;
            assert(u[j].path@ == p);
        }
    }
    lemma_index_of(u, e.path@, i);
}

pub proof fn lemma_push_new(entries: Seq<Pending>, e: Pending)
    requires
        paths_unique(entries),
        !has_path(entries, e.path@),
    ensures
        paths_unique(entries.push(e)),
        has_path(entries.push(e), e.path@),
        index_of(entries.push(e), e.path@) == entries.len(),
        forall|p: Seq<char>| p != e.path@ ==> has_path(entries.push(e), p) == has_path(entries, p),
{
    let u = entries.push(e);
    assert forall|a: int, b: int|
        0 <= a < u.len() && 0 <= b < u.len() && #[trigger] u[a].path@ == #[trigger] u[b].path@ implies a == b by {
        if a < entries.len() {
            assert(u[a] == entries[a]);
        }
        if b < entries.len() {
            assert(u[b] == entries[b]);
        }
    }
    lemma_index_of(u, e.path@, entries.len() as int);
    assert forall|p: Seq<char>| p != e.path@ implies has_path(u, p) == has_path(entries, p) by {
        if has_path(u, p) {
            let j = choose|j: int| 0 <= j < u.len() && #[trigger] u[j].path@ == p;
            assert(j < entries.len());
            assert(entries[j] == u[j]);
        }
        if has_path(entries, p) {
            let j = choose|j: int| 0 <= j < entries.len() && #[trigger] entries[j].path@ == p;
            assert(u[j] == entries[j]);
        }
    }
}

pub proof fn lemma_remove(entries: Seq<Pending>, k: int)
    requires
        paths_unique(entries),
        0 <= k < entries.len(),
    ensures
        paths_unique(entries.remove(k)),
        forall|p: Seq<char>| has_path(entries.remove(k), p) ==> has_path(entries, p),
{
    let u = entries.remove(k);
    assert forall|a: int, b: int|
        0 <= a < u.len() && 0 <= b < u.len() && #[trigger] u[a].path@ == #[trigger] u[b].path@ implies a == b by {
        let oa = if a < k { a } else { a + 1 };
        let ob = if b < k { b } else { b + 1 };
        assert(u[a] == entries[oa]);
        assert(u[b] == entries[ob]);
    }
    assert forall|p: Seq<char>| has_path(u, p) implies has_path(entries, p) by {
        let j = choose|j: int| 0 <= j < u.len() && #[trigger] u[j].path@ == p;
        let oj = if j < k { j } else { j + 1 };
        assert(u[j] == entries[oj]);
    }
}

pub proof fn lemma_filter_unique(entries: Seq<Pending>, pred: spec_fn(Pending) -> bool)
    requires
        paths_unique(entries),
    ensures
        paths_unique(entries.filter(pred)),
        entries.filter(pred).len() <= entries.len(),
    decreases entries.len(),
{
    broadcast use vstd::seq_lib::group_filter_ensures;
    if entries.len() > 0 {
        let d = entries.drop_last();
        assert(paths_unique(d)) by {
            assert forall|a: int, b: int|
                0 <= a < d.len() && 0 <= b < d.len() && #[trigger] d[a].path@ == #[trigger] d[b].path@ implies a == b by {
                assert(d[a] == entries[a]);
                assert(d[b] == entries[b]);
            }
        }
        lemma_filter_unique(d, pred);
        assert(entries =~= d.push(entries.last()));
        d.lemma_filter_push(entries.last(), pred);
        let f = d.filter(pred);
        if pred(entries.last()) {
            assert forall|k: int| 0 <= k < f.len() implies #[trigger] f[k].path@ != entries.last().path@ by {
                assert(f.contains(f[k]));
                d.lemma_filter_contains_rev(pred, f[k]);
                let j = choose|j: int| 0 <= j < d.len() && d[j] == f[k];
                assert(entries[j] == d[j]);
            }
            let u = f.push(entries.last());
            assert forall|a: int, b: int|
                0 <= a < u.len() && 0 <= b < u.len() && #[trigger] u[a].path@ == #[trigger] u[b].path@ implies a == b by {
                if a < f.len() {
                    assert(u[a] == f[a]);
                }
                if b < f.len() {
                    assert(u[b] == f[b]);
                }
            }
        }
    }
}

/// Facts about entries kept and emitted by a sweep, as seen from one path.
pub proof fn lemma_swept(s: DebounceState, p: Seq<char>, t: u64)
    requires
        s.wf(),
    ensures
        s.swept(t).wf(),
        paths_unique(s.due(t)),
        !has_path(s.entries, p) ==> !has_path(s.swept(t).entries, p) && !has_path(s.due(t), p),
        has_path(s.entries, p) && t < s.entry_of(p).deadline ==> {
            &&& has_path(s.swept(t).entries, p)
            &&& s.swept(t).entry_of(p) == s.entry_of(p)
            &&& !has_path(s.due(t), p)
        },
        has_path(s.entries, p) && s.entry_of(p).deadline <= t ==> {
            &&& !has_path(s.swept(t).entries, p)
            &&& has_path(s.due(t), p)
            &&& s.due(t)[index_of(s.due(t), p)] == s.entry_of(p)
        },
{
    broadcast use vstd::seq_lib::group_filter_ensures;
    lemma_filter_unique(s.entries, pending_at(t));
    lemma_filter_unique(s.entries, due_at(t));
    let kept = s.entries.filter(pending_at(t));
    let due = s.entries.filter(due_at(t));
    // every element of either part is an entry of the table
    assert forall|k: int| 0 <= k < kept.len() implies has_path(s.entries, #[trigger] kept[k].path@)
        && s.entry_of(kept[k].path@) == kept[k] by {
        assert(kept.contains(kept[k]));
        s.entries.lemma_filter_contains_rev(pending_at(t), kept[k]);
        let j = choose|j: int| 0 <= j < s.entries.len() && s.entries[j] == kept[k];
        lemma_index_of(s.entries, kept[k].path@, j);
    }
    assert forall|k: int| 0 <= k < due.len() implies has_path(s.entries, #[trigger] due[k].path@)
        && s.entry_of(due[k].path@) == due[k] by {
        assert(due.contains(due[k]));
        s.entries.lemma_filter_contains_rev(due_at(t), due[k]);
        let j = choose|j: int| 0 <= j < s.entries.len() && s.entries[j] == due[k];
        lemma_index_of(s.entries, due[k].path@, j);
    }
    if has_path(s.entries, p) {
        let i = index_of(s.entries, p);
        let e = s.entries[i];
        if t < e.deadline {
            s.entries.lemma_filter_contains(pending_at(t), i);
            let j = choose|j: int| 0 <= j < kept.len() && kept[j] == e;
            lemma_index_of(kept, p, j);
            if has_path(due, p) {
                let k = choose|k: int| 0 <= k < due.len() && #[trigger] due[k].path@ == p;
                assert(due_at(t)(due[k]));
            }
        } else {
            s.entries.lemma_filter_contains(due_at(t), i);
            let j = choose|j: int| 0 <= j < due.len() && due[j] == e;
            lemma_index_of(due, p, j);
            if has_path(kept, p) {
                let k = choose|k: int| 0 <= k < kept.len() && #[trigger] kept[k].path@ == p;
                assert(pending_at(t)(kept[k]));
            }
        }
    } else {
        if has_path(kept, p) {
            let k = choose|k: int| 0 <= k < kept.len() && #[trigger] kept[k].path@ == p;
        }
        if has_path(due, p) {
            let k = choose|k: int| 0 <= k < due.len() && #[trigger] due[k].path@ == p;
        }
    }
}

/// The table after a record keeps its paths unique, and holds an entry for
/// the record's path.
pub proof fn lemma_next(s: DebounceState, r: RawRecord, now: u64)
    requires
        s.wf(),
    ensures
        s.next(r, now).wf(),
        !r.kind.bypasses() && !s.pairs(r, now) ==> {
            &&& has_path(s.next(r, now).entries, r.path@)
            &&& s.next(r, now).entry_of(r.path@) == if has_path(s.entries, r.path@) {
                updated_entry(s.entry_of(r.path@), r, deadline_after(now, s.quiescence))
            } else {
                fresh_entry(r, deadline_after(now, s.quiescence))
            }
            &&& forall|p: Seq<char>| has_path(s.next(r, now).entries, p) && p != r.path@ ==> has_path(s.entries, p)
        },
        s.pairs(r, now) ==> {
            &&& has_path(s.next(r, now).entries, s.last_from->0@)
            &&& s.next(r, now).entry_of(s.last_from->0@) == paired_entry(
                s.entry_of(s.last_from->0@),
                r.path,
                deadline_after(now, s.quiescence),
            )
            &&& forall|p: Seq<char>| has_path(s.next(r, now).entries, p) == has_path(s.entries, p)
        },
        s.evicts(r, now) ==> s.entries[earliest(s.entries)].path@ != r.path@,
{
    let dl = deadline_after(now, s.quiescence);
    if r.kind.bypasses() {
    } else if s.pairs(r, now) {
        let i = index_of(s.entries, s.last_from->0@);
        lemma_update_same_path(s.entries, i, paired_entry(s.entries[i], r.path, dl));
    } else if has_path(s.entries, r.path@) {
        let i = index_of(s.entries, r.path@);
        lemma_update_same_path(s.entries, i, updated_entry(s.entries[i], r, dl));
    } else if s.entries.len() < s.capacity {
        lemma_push_new(s.entries, fresh_entry(r, dl));
    } else {
        lemma_earliest_is_min(s.entries);
        let k = earliest(s.entries);
        lemma_remove(s.entries, k);
        lemma_push_new(s.entries.remove(k), fresh_entry(r, dl));
        assert(has_path(s.entries, s.entries[k].path@));
    }
}

} // verus!
