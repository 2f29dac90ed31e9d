use vstd::prelude::*;

use crate::kinds::EventKind;

verus! {

/// The kind of a raw change record, as the watch primitive reports it.
#[derive(Clone, Copy, Debug, PartialEq, Eq, Structural)]
pub enum RawKind {
    NoticeWrite,
    NoticeRemove,
    Create,
    Write,
    Chmod,
    Remove,
    RenameFrom,
    RenameTo,
    Rescan,
    Error,
}

impl RawKind {
    /// A provisional hint that never yields a logical event by itself.
    pub open spec fn is_notice(self) -> bool {
        self == RawKind::NoticeWrite || self == RawKind::NoticeRemove
    }

    /// Records of these kinds are not debounced.
    pub open spec fn bypasses(self) -> bool {
        self == RawKind::Rescan || self == RawKind::Error
    }
}

/// One unprocessed change notification.
///
/// `secondary_path` holds the destination of a rename when `path` is its
/// source. `error` holds the message of an `Error` record; an `Error` record
/// with an empty `path` concerns no particular path.
#[derive(Debug)]
pub struct RawRecord {
    pub path: String,
    pub kind: RawKind,
    pub secondary_path: Option<String>,
    pub error: Option<String>,
}

/// A classified, user-facing change. `secondary` is set only for `Rename`.
#[derive(Debug)]
pub struct LogicalEvent {
    pub kind: EventKind,
    pub primary: String,
    pub secondary: Option<String>,
}

/// What the error side channel receives for an `Error` record.
#[derive(Debug)]
pub struct ErrorReport {
    pub message: String,
    pub path: Option<String>,
}

/// A copy of an optional string.
pub fn copy_opt_string(s: &Option<String>) -> (r: Option<String>)
    ensures
        r == *s,
{
    match s {
        Some(x) => Some(x.clone()),
        None => None,
    }
}

impl LogicalEvent {
    pub fn duplicate(&self) -> (r: LogicalEvent)
        ensures
            r == *self,
    {
        LogicalEvent {
            kind: self.kind,
            primary: self.primary.clone(),
            secondary: copy_opt_string(&self.secondary),
        }
    }
}

impl ErrorReport {
    /// The report that an `Error` record produces.
    pub open spec fn reports(self, r: RawRecord) -> bool {
        &&& self.message@ == match r.error {
            Some(m) => m@,
            None => Seq::<char>::empty(),
        }
        &&& self.path == if r.path@.len() == 0 {
            None::<String>
        } else {
            Some(r.path)
        }
    }

    /// Builds the report of an `Error` record.
    pub fn from_record(r: RawRecord) -> (e: ErrorReport)
        ensures
            e.reports(r),
    {
        let message = match r.error {
            Some(m) => m,
            None => String::new(),
        };
        let path = if r.path.as_str().unicode_len() == 0 {
            None
        } else {
            Some(r.path)
        };
        ErrorReport { message, path }
    }
}

} // verus!
