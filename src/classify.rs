use vstd::prelude::*;

use crate::debounce::Pending;
use crate::kinds::{EventKind, KindSet};
use crate::record::{LogicalEvent, RawKind};

verus! {

pub open spec fn event_of(kind: EventKind, primary: String, secondary: Option<String>) -> LogicalEvent {
    LogicalEvent { kind, primary, secondary }
}

/// The logical event that a settled entry stands for.
///
/// A rename source paired with its destination is a `Rename`; a source left
/// unpaired is a `Remove` and an unpaired destination a `Create`. Rename
/// halves are paired by arrival adjacency, not by file identity, so a rename
/// interleaved with other activity may be reported as a remove and a create.
/// Notices give nothing.
pub open spec fn classified(c: Pending) -> Option<LogicalEvent> {
    match c.kind {
        RawKind::Create => Some(event_of(EventKind::Create, c.path, None)),
        RawKind::Write => Some(event_of(EventKind::Write, c.path, None)),
        RawKind::Chmod => Some(event_of(EventKind::Chmod, c.path, None)),
        RawKind::Remove => Some(event_of(EventKind::Remove, c.path, None)),
        RawKind::RenameFrom => match c.secondary {
            Some(to) => Some(event_of(EventKind::Rename, c.path, Some(to))),
            None => Some(event_of(EventKind::Remove, c.path, None)),
        },
        RawKind::RenameTo => Some(event_of(EventKind::Create, c.path, None)),
        _ => None,
    }
}

pub fn classify(c: Pending) -> (r: Option<LogicalEvent>)
    ensures
        r == classified(c),
{
    match c.kind {
        RawKind::Create => Some(LogicalEvent { kind: EventKind::Create, primary: c.path, secondary: None }),
        RawKind::Write => Some(LogicalEvent { kind: EventKind::Write, primary: c.path, secondary: None }),
        RawKind::Chmod => Some(LogicalEvent { kind: EventKind::Chmod, primary: c.path, secondary: None }),
        RawKind::Remove => Some(LogicalEvent { kind: EventKind::Remove, primary: c.path, secondary: None }),
        RawKind::RenameFrom => match c.secondary {
            Some(to) => Some(LogicalEvent { kind: EventKind::Rename, primary: c.path, secondary: Some(to) }),
            None => Some(LogicalEvent { kind: EventKind::Remove, primary: c.path, secondary: None }),
        },
        RawKind::RenameTo => Some(LogicalEvent { kind: EventKind::Create, primary: c.path, secondary: None }),
        _ => None,
    }
}

/// The events that settled entries give, in order, once those of kinds not
/// in `k` are dropped.
pub open spec fn delivered(k: KindSet, due: Seq<Pending>) -> Seq<LogicalEvent>
    decreases due.len(),
{
    if due.len() == 0 {
        Seq::empty()
    } else {
        let rest = delivered(k, due.drop_last());
        match classified(due.last()) {
            Some(e) => if k.has(e.kind) {
                rest.push(e)
            } else {
                rest
            },
            None => rest,
        }
    }
}

/// Classifies settled entries and keeps the events whose kind is in `k`.
pub fn deliver(k: &KindSet, due: &Vec<Pending>) -> (r: Vec<LogicalEvent>)
    ensures
        r@ == delivered(*k, due@),
{
    let mut r: Vec<LogicalEvent> = Vec::new();
    let mut i: usize = 0;
    assert(due@.take(0) =~= Seq::<Pending>::empty());
    while i < due.len()
        invariant
            i <= due@.len(),
            r@ == delivered(*k, due@.take(i as int)),
        decreases due@.len() - i,
    {
        assert(due@.take(i as int + 1).drop_last() =~= due@.take(i as int));
        if let Some(e) = classify(due[i].duplicate()) {
            if k.contains(e.kind) {
                r.push(e);
            }
        }
        i = i + 1;
    }
    assert(due@.take(due@.len() as int) =~= due@);
    r
}

} // verus!
