use vstd::prelude::*;

use crate::record::{copy_opt_string, ErrorReport, RawKind, RawRecord};
use crate::table::lemma_index_of;

verus! {

/// The settled-or-not activity of one path: the last relevant kind seen, the
/// rename destination when one is paired, and when the path counts as quiet.
#[derive(Debug)]
pub struct Pending {
    pub path: String,
    pub kind: RawKind,
    pub secondary: Option<String>,
    pub deadline: u64,
    /// Set by a notice: a confirming record is expected.
    pub awaiting: bool,
}

impl Pending {
    pub fn duplicate(&self) -> (r: Pending)
        ensures
            r == *self,
    {
        Pending {
            path: self.path.clone(),
            kind: self.kind,
            secondary: copy_opt_string(&self.secondary),
            deadline: self.deadline,
            awaiting: self.awaiting,
        }
    }
}

/// What one raw record immediately gives.
#[derive(Debug)]
pub enum Ingest {
    /// The record was taken into the pending table.
    Held,
    /// The table was full: this entry, the one with the earliest deadline,
    /// was forced out to make room.
    Flushed(Pending),
    /// A rescan marker; rename correlation was reset.
    Rescan,
    /// An error for the side channel.
    Failed(ErrorReport),
}

/// The mathematical state of a debouncer.
pub struct DebounceState {
    pub quiescence: u64,
    pub capacity: nat,
    pub entries: Seq<Pending>,
    /// The source path of the record just before, when it was an unpaired
    /// `RenameFrom`.
    pub last_from: Option<String>,
}

/// `now + q`, held at the largest time.
pub open spec fn deadline_after(now: u64, q: u64) -> u64 {
    if now as int + q as int > u64::MAX as int {
        u64::MAX
    } else {
        (now + q) as u64
    }
}

/// The destination that a record carries into its entry.
pub open spec fn carried(r: RawRecord) -> Option<String> {
    if r.kind == RawKind::RenameFrom {
        r.secondary_path
    } else {
        None
    }
}

/// A new entry for the record's path.
pub open spec fn fresh_entry(r: RawRecord, dl: u64) -> Pending {
    Pending {
        path: r.path,
        kind: r.kind,
        secondary: carried(r),
        deadline: dl,
        awaiting: r.kind.is_notice(),
    }
}

/// The entry `e` of the record's path after the record: a notice only
/// refreshes the deadline; any other kind replaces the one held.
pub open spec fn updated_entry(e: Pending, r: RawRecord, dl: u64) -> Pending {
    Pending {
        path: r.path,
        kind: if r.kind.is_notice() {
            e.kind
        } else {
            r.kind
        },
        secondary: if r.kind.is_notice() {
            e.secondary
        } else {
            carried(r)
        },
        deadline: dl,
        awaiting: r.kind.is_notice(),
    }
}

/// The entry `e` of a rename source after its destination `to` arrived.
pub open spec fn paired_entry(e: Pending, to: String, dl: u64) -> Pending {
    Pending { path: e.path, kind: e.kind, secondary: Some(to), deadline: dl, awaiting: false }
}

pub open spec fn has_path(entries: Seq<Pending>, p: Seq<char>) -> bool {
    exists|i: int| 0 <= i < entries.len() && #[trigger] entries[i].path@ == p
}

pub open spec fn index_of(entries: Seq<Pending>, p: Seq<char>) -> int {
    choose|i: int| 0 <= i < entries.len() && #[trigger] entries[i].path@ == p
}

pub open spec fn paths_unique(entries: Seq<Pending>) -> bool {
    forall|i: int, j: int|
        0 <= i < entries.len() && 0 <= j < entries.len() && #[trigger] entries[i].path@
            == #[trigger] entries[j].path@ ==> i == j
}

/// The first entry among those with the earliest deadline.
pub open spec fn earliest(entries: Seq<Pending>) -> int
    decreases entries.len(),
{
    if entries.len() <= 1 {
        0
    } else {
        let j = earliest(entries.drop_last());
        if entries.last().deadline < entries[j].deadline {
            entries.len() - 1
        } else {
            j
        }
    }
}

/// Whether an entry has settled by `now`.
pub open spec fn due_at(now: u64) -> spec_fn(Pending) -> bool {
    |e: Pending| e.deadline <= now
}

/// Whether an entry is still within its quiescence window at `now`.
pub open spec fn pending_at(now: u64) -> spec_fn(Pending) -> bool {
    |e: Pending| now < e.deadline
}

/// No entry has an earlier deadline than the one `earliest` picks.
pub proof fn lemma_earliest_is_min(entries: Seq<Pending>)
    requires
        entries.len() > 0,
    ensures
        0 <= earliest(entries) < entries.len(),
        forall|i: int|
            0 <= i < entries.len() ==> entries[earliest(entries)].deadline <= #[trigger] entries[i].deadline,
    decreases entries.len(),
{
    if entries.len() > 1 {
        lemma_earliest_is_min(entries.drop_last());
        assert forall|i: int| 0 <= i < entries.len() implies entries[earliest(entries)].deadline <= #[trigger] entries[i].deadline by {
            if i < entries.len() - 1 {
                assert(entries[i] == entries.drop_last()[i]);
            }
        }
    }
}

impl DebounceState {
    pub open spec fn wf(self) -> bool {
        &&& self.capacity >= 1
        &&& self.entries.len() <= self.capacity
        &&& paths_unique(self.entries)
    }

    /// The entry of path `p`, where there is one.
    pub open spec fn entry_of(self, p: Seq<char>) -> Pending {
        self.entries[index_of(self.entries, p)]
    }

    /// Whether a `RenameTo` record pairs with the `RenameFrom` just before it,
    /// whose entry is still within its quiescence window.
    pub open spec fn pairs(self, r: RawRecord, now: u64) -> bool {
        &&& r.kind == RawKind::RenameTo
        &&& self.last_from is Some
        &&& has_path(self.entries, self.last_from->0@)
        &&& self.entry_of(self.last_from->0@).kind == RawKind::RenameFrom
        &&& self.entry_of(self.last_from->0@).secondary is None
        &&& now < self.entry_of(self.last_from->0@).deadline
    }

    /// Whether the record needs a new entry in a full table.
    pub open spec fn evicts(self, r: RawRecord, now: u64) -> bool {
        &&& !r.kind.bypasses()
        &&& !self.pairs(r, now)
        &&& !has_path(self.entries, r.path@)
        &&& self.entries.len() >= self.capacity
    }

    /// The state after the record arrives at time `now`.
    pub open spec fn next(self, r: RawRecord, now: u64) -> DebounceState {
        let dl = deadline_after(now, self.quiescence);
        if r.kind == RawKind::Error {
            self
        } else if r.kind == RawKind::Rescan {
            DebounceState { last_from: None, ..self }
        } else if self.pairs(r, now) {
            let i = index_of(self.entries, self.last_from->0@);
            DebounceState {
                entries: self.entries.update(i, paired_entry(self.entries[i], r.path, dl)),
                last_from: None,
                ..self
            }
        } else {
            let last_from = if r.kind == RawKind::RenameFrom && r.secondary_path is None {
                Some(r.path)
            } else {
                None
            };
            let entries = if has_path(self.entries, r.path@) {
                let i = index_of(self.entries, r.path@);
                self.entries.update(i, updated_entry(self.entries[i], r, dl))
            } else if self.entries.len() < self.capacity {
                self.entries.push(fresh_entry(r, dl))
            } else {
                self.entries.remove(earliest(self.entries)).push(fresh_entry(r, dl))
            };
            DebounceState { entries, last_from, ..self }
        }
    }

    /// Whether `out` is what the record gives at once.
    pub open spec fn outcome(self, r: RawRecord, now: u64, out: Ingest) -> bool {
        if r.kind == RawKind::Error {
            out matches Ingest::Failed(e) && e.reports(r)
        } else if r.kind == RawKind::Rescan {
            out is Rescan
        } else if self.evicts(r, now) {
            out == Ingest::Flushed(self.entries[earliest(self.entries)])
        } else {
            out is Held
        }
    }

    /// The entries that are due at `now`, in table order.
    pub open spec fn due(self, now: u64) -> Seq<Pending> {
        self.entries.filter(due_at(now))
    }

    /// The state after the entries due at `now` are emitted.
    pub open spec fn swept(self, now: u64) -> DebounceState {
        DebounceState { entries: self.entries.filter(pending_at(now)), ..self }
    }
}

/// Coalesces bursts of raw records per path, holding each path's activity
/// until it has been quiet for the quiescence window.
///
/// The table holds at most `capacity` entries: a record for a new path in a
/// full table forces out the entry with the earliest deadline at once, so a
/// stalled sweep cannot make the table grow without bound.
#[derive(Debug)]
pub struct Debouncer {
    quiescence: u64,
    capacity: usize,
    entries: Vec<Pending>,
    last_from: Option<String>,
}

impl View for Debouncer {
    type V = DebounceState;

    closed spec fn view(&self) -> DebounceState {
        DebounceState {
            quiescence: self.quiescence,
            capacity: self.capacity as nat,
            entries: self.entries@,
            last_from: self.last_from,
        }
    }
}

impl Debouncer {
    /// An empty debouncer; a capacity of zero is taken as one.
    pub fn new(quiescence: u64, capacity: usize) -> (d: Debouncer)
        ensures
            d@.wf(),
            d@.quiescence == quiescence,
            d@.capacity == if capacity == 0 {
                1
            } else {
                capacity as nat
            },
            d@.entries.len() == 0,
            d@.last_from is None,
    {
        let capacity = if capacity == 0 {
            1
        } else {
            capacity
        };
        Debouncer { quiescence, capacity, entries: Vec::new(), last_from: None }
    }

    pub fn len(&self) -> (n: usize)
        ensures
            n == self@.entries.len(),
    {
        self.entries.len()
    }

    fn find(&self, p: &String) -> (r: Option<usize>)
        ensures
            match r {
                Some(i) => i < self@.entries.len() && self@.entries[i as int].path@ == p@,
                None => !has_path(self@.entries, p@),
            },
    {
        let mut i: usize = 0;
        while i < self.entries.len()
            invariant
                i <= self.entries@.len(),
                forall|j: int| 0 <= j < i ==> self.entries@[j].path@ != p@,
            decreases self.entries@.len() - i,
        {
            if self.entries[i].path == *p {
                return Some(i);
            }
            i = i + 1;
        }
        None
    }

    fn earliest_index(&self) -> (r: usize)
        requires
            self@.entries.len() > 0,
        ensures
            r as int == earliest(self@.entries),
            r < self@.entries.len(),
    {
        let mut best: usize = 0;
        let mut i: usize = 1;
        while i < self.entries.len()
            invariant
                1 <= i <= self.entries@.len(),
                best < i,
                best as int == earliest(self.entries@.take(i as int)),
            decreases self.entries@.len() - i,
        {
            assert(self.entries@.take(i as int + 1).drop_last() =~= self.entries@.take(i as int));
            if self.entries[i].deadline < self.entries[best].deadline {
                best = i;
            }
            i = i + 1;
        }
        assert(self.entries@.take(i as int) =~= self.entries@);
        best
    }
    /// Takes one raw record arriving at time `now`.
    pub fn ingest(&mut self, r: RawRecord, now: u64) -> (out: Ingest)
        requires
            old(self)@.wf(),
        ensures
            final(self)@.wf(),
            final(self)@ == old(self)@.next(r, now),
            old(self)@.outcome(r, now, out),
    {
        let ghost r0 = r;
        let ghost s0 = self@;
        let dl = if now > u64::MAX - self.quiescence {
            u64::MAX
        } else {
            now + self.quiescence
        };
        if r.kind == RawKind::Error {
            return Ingest::Failed(ErrorReport::from_record(r));
        }
        if r.kind == RawKind::Rescan {
            self.last_from = None;
            return Ingest::Rescan;
        }
        let from = copy_opt_string(&self.last_from);
        if r.kind == RawKind::RenameTo {
            if let Some(a) = from {
                if let Some(i) = self.find(&a) {
                    proof {
                        lemma_index_of(s0.entries, a@, i as int);
                    }
                    if self.entries[i].kind == RawKind::RenameFrom && self.entries[i].secondary.is_none()
                        && now < self.entries[i].deadline {
                        let e = Pending {
                            path: self.entries[i].path.clone(),
                            kind: self.entries[i].kind,
                            secondary: Some(r.path),
                            deadline: dl,
                            awaiting: false,
                        };
                        self.entries.set(i, e);
                        self.last_from = None;
                        proof {
                            assert(s0.pairs(r0, now));
                            assert(self@.entries =~= s0.entries.update(i as int, paired_entry(s0.entries[i as int], r0.path, dl)));
                        }
                        return Ingest::Held;
                    }
                } else {
                    assert(!s0.pairs(r0, now));
                }
            }
        }
        assert(!s0.pairs(r0, now));
        let notice = r.kind == RawKind::NoticeWrite || r.kind == RawKind::NoticeRemove;
        let last_from = if r.kind == RawKind::RenameFrom && r.secondary_path.is_none() {
            Some(r.path.clone())
        } else {
            None
        };
        let carried = if r.kind == RawKind::RenameFrom {
            r.secondary_path
        } else {
            None
        };
        let out = match self.find(&r.path) {
            Some(i) => {
                proof {
                    lemma_index_of(s0.entries, r0.path@, i as int);
                }
                let kind = if notice {
                    self.entries[i].kind
                } else {
                    r.kind
                };
                let secondary = if notice {
                    copy_opt_string(&self.entries[i].secondary)
                } else {
                    carried
                };
                let e = Pending { path: r.path, kind, secondary, deadline: dl, awaiting: notice };
                self.entries.set(i, e);
                proof {
                    assert(self@.entries =~= s0.entries.update(i as int, updated_entry(s0.entries[i as int], r0, dl)));
                    assert(paths_unique(self@.entries));
                }
                Ingest::Held
            },
            None => {
                let e = Pending { path: r.path, kind: r.kind, secondary: carried, deadline: dl, awaiting: notice };
                if self.entries.len() < self.capacity {
                    self.entries.push(e);
                    proof {
                        assert(paths_unique(self@.entries)) by {
                            assert forall|i: int, j: int|
                                0 <= i < self@.entries.len() && 0 <= j < self@.entries.len() && #[trigger] self@.entries[i].path@
                                    == #[trigger] self@.entries[j].path@ implies i == j by {
                                if i < s0.entries.len() && j < s0.entries.len() {
                                    assert(self@.entries[i] == s0.entries[i]);
                                    assert(self@.entries[j] == s0.entries[j]);
                                } else if i < s0.entries.len() {
                                    assert(self@.entries[i] == s0.entries[i]);
                                } else if j < s0.entries.len() {
                                    assert(self@.entries[j] == s0.entries[j]);
                                }
                            }
                        }
                    }
                    Ingest::Held
                } else {
                    let k = self.earliest_index();
                    let gone = self.entries.remove(k);
                    let ghost mid = self.entries@;
                    self.entries.push(e);
                    proof {
                        assert(paths_unique(self@.entries)) by {
                            assert forall|i: int, j: int|
                                0 <= i < self@.entries.len() && 0 <= j < self@.entries.len() && #[trigger] self@.entries[i].path@
                                    == #[trigger] self@.entries[j].path@ implies i == j by {
                                if i < mid.len() {
                                    let oi = if i < k { i } else { i + 1 };
                                    assert(self@.entries[i] == s0.entries[oi]);
                                }
                                if j < mid.len() {
                                    let oj = if j < k { j } else { j + 1 };
                                    assert(self@.entries[j] == s0.entries[oj]);
                                }
                            }
                        }
                    }
                    Ingest::Flushed(gone)
                }
            },
        };
        self.last_from = last_from;
        out
    }

    /// Emits and removes the entries whose deadline has come by `now`.
    pub fn sweep(&mut self, now: u64) -> (due: Vec<Pending>)
        requires
            old(self)@.wf(),
        ensures
            final(self)@.wf(),
            final(self)@ == old(self)@.swept(now),
            due@ == old(self)@.due(now),
    {
        let ghost s0 = self@;
        let mut due: Vec<Pending> = Vec::new();
        let mut keep: Vec<Pending> = Vec::new();
        let mut i: usize = 0;
        assert(self.entries@.take(0) =~= Seq::<Pending>::empty());
        while i < self.entries.len()
            invariant
                s0 == self@,
                s0.wf(),
                i <= self.entries@.len(),
                due@ == self.entries@.take(i as int).filter(due_at(now)),
                keep@ == self.entries@.take(i as int).filter(pending_at(now)),
                paths_unique(keep@),
            decreases self.entries@.len() - i,
        {
            let ghost pre = self.entries@.take(i as int);
            proof {
                pre.lemma_filter_push(self.entries@[i as int], due_at(now));
                pre.lemma_filter_push(self.entries@[i as int], pending_at(now));
                assert(self.entries@.take(i as int + 1) =~= pre.push(self.entries@[i as int]));
            }
            let e = self.entries[i].duplicate();
            if e.deadline <= now {
                due.push(e);
                assert(due@ == self.entries@.take(i as int + 1).filter(due_at(now)));
            } else {
                let ghost k0 = keep@;
                proof {
                    assert forall|k: int| 0 <= k < k0.len() implies #[trigger] k0[k].path@ != e.path@ by {
                        assert(k0.contains(k0[k]));
                        pre.lemma_filter_contains_rev(pending_at(now), k0[k]);
                        assert(pre.contains(k0[k]));
                        let j = choose|j: int| 0 <= j < pre.len() && pre[j] == k0[k];
                        assert(self.entries@[j] == pre[j]);
                    }
                }
                keep.push(e);
                proof {
                    assert(paths_unique(keep@)) by {
                        assert forall|a: int, b: int|
                            0 <= a < keep@.len() && 0 <= b < keep@.len() && #[trigger] keep@[a].path@
                                == #[trigger] keep@[b].path@ implies a == b by {
                            if a < k0.len() && b < k0.len() {
                                assert(keep@[a] == k0[a]);
                                assert(keep@[b] == k0[b]);
                            } else if a < k0.len() {
                                assert(keep@[a] == k0[a]);
                            } else if b < k0.len() {
                                assert(keep@[b] == k0[b]);
                            }
                        }
                    }
                }
            }
            i = i + 1;
        }
        assert(self.entries@.take(i as int) =~= self.entries@);
        proof {
            self.entries@.lemma_filter_len(pending_at(now));
        }
        self.entries = keep;
        due
    }

    /// The earliest deadline in the table, when it holds any entry.
    pub fn next_deadline(&self) -> (r: Option<u64>)
        ensures
            match r {
                None => self@.entries.len() == 0,
                Some(d) => {
                    &&& self@.entries.len() > 0
                    &&& d == self@.entries[earliest(self@.entries)].deadline
                    &&& forall|i: int| 0 <= i < self@.entries.len() ==> d <= #[trigger] self@.entries[i].deadline
                },
            },
    {
        if self.entries.len() == 0 {
            None
        } else {
            proof {
                lemma_earliest_is_min(self@.entries);
            }
            let k = self.earliest_index();
            Some(self.entries[k].deadline)
        }
    }

    /// Discards every pending entry without emitting it.
    pub fn discard(&mut self)
        requires
            old(self)@.wf(),
        ensures
            final(self)@.wf(),
            final(self)@ == (DebounceState { entries: Seq::empty(), last_from: None, ..old(self)@ }),
    {
        self.entries = Vec::new();
        self.last_from = None;
        assert(self@.entries =~= Seq::<Pending>::empty());
    }
}

} // verus!
