use vstd::prelude::*;

use crate::classify::{deliver, delivered};
use crate::debounce::{earliest, DebounceState, Debouncer, Ingest, Pending};
use crate::kinds::KindSet;
use crate::record::{ErrorReport, LogicalEvent, RawKind, RawRecord};

verus! {

/// How a watch came to an end.
#[derive(Clone, Copy, Debug, PartialEq, Eq, Structural)]
pub enum Termination {
    /// The raw record stream closed: nothing more can be watched.
    Fatal,
    /// The user asked to stop.
    UserRequested,
}

impl Termination {
    /// The process status: non-zero for a fatal end.
    pub fn exit_code(&self) -> (c: i32)
        ensures
            c == 0 <==> *self == Termination::UserRequested,
            *self == Termination::Fatal ==> c == 1,
    {
        match self {
            Termination::Fatal => 1,
            Termination::UserRequested => 0,
        }
    }
}

#[derive(Clone, Copy, Debug, PartialEq, Eq, Structural)]
pub enum RunState {
    Running,
    Terminated(Termination),
}

/// What to watch, how long a path must be quiet, and which kinds to report.
#[derive(Debug)]
pub struct WatchConfig {
    pub root: String,
    pub quiescence: u64,
    pub interested: KindSet,
}

/// What one raw record gives at once.
#[derive(Debug)]
pub struct Step {
    /// Events reported now (an entry forced out of a full table).
    pub events: Vec<LogicalEvent>,
    /// The report for the error side channel, for an `Error` record.
    pub error: Option<ErrorReport>,
}

pub struct PipelineState {
    pub interested: KindSet,
    pub debounce: DebounceState,
    pub run: RunState,
}

/// Debouncer, classifier and kind filter, driven by raw records and by the
/// passing of time.
#[derive(Debug)]
pub struct Pipeline {
    interested: KindSet,
    debouncer: Debouncer,
    run: RunState,
}

impl View for Pipeline {
    type V = PipelineState;

    closed spec fn view(&self) -> PipelineState {
        PipelineState { interested: self.interested, debounce: self.debouncer@, run: self.run }
    }
}

impl Pipeline {
    pub open spec fn wf(&self) -> bool {
        self@.debounce.wf()
    }

    /// A running pipeline with an empty table of at most `capacity` entries
    /// (zero is taken as one).
    pub fn new(config: &WatchConfig, capacity: usize) -> (p: Pipeline)
        ensures
            p.wf(),
            p@.interested == config.interested,
            p@.run == RunState::Running,
            p@.debounce.quiescence == config.quiescence,
            p@.debounce.entries.len() == 0,
            p@.debounce.last_from is None,
    {
        Pipeline {
            interested: config.interested,
            debouncer: Debouncer::new(config.quiescence, capacity),
            run: RunState::Running,
        }
    }

    pub fn state(&self) -> (r: RunState)
        ensures
            r == self@.run,
    {
        self.run
    }

    /// Takes a raw record that arrived at time `now`. A terminated pipeline
    /// ignores it.
    pub fn on_record(&mut self, r: RawRecord, now: u64) -> (out: Step)
        requires
            old(self).wf(),
        ensures
            final(self).wf(),
            final(self)@.interested == old(self)@.interested,
            final(self)@.run == old(self)@.run,
            old(self)@.run is Running ==> {
                &&& final(self)@.debounce == old(self)@.debounce.next(r, now)
                &&& out.events@ == if old(self)@.debounce.evicts(r, now) {
                    delivered(
                        old(self)@.interested,
                        seq![old(self)@.debounce.entries[earliest(old(self)@.debounce.entries)]],
                    )
                } else {
                    Seq::empty()
                }
                &&& (out.error is Some <==> r.kind == RawKind::Error)
                &&& (out.error matches Some(e) ==> e.reports(r))
            },
            old(self)@.run is Terminated ==> {
                &&& final(self)@ == old(self)@
                &&& out.events@.len() == 0
                &&& out.error is None
            },
    {
        if self.run != RunState::Running {
            return Step { events: Vec::new(), error: None };
        }
        let ghost s0 = self@.debounce;
        match self.debouncer.ingest(r, now) {
            Ingest::Flushed(e) => {
                let ghost e0 = e;
                let mut one: Vec<Pending> = Vec::new();
                one.push(e);
                assert(one@ =~= seq![e0]);
                Step { events: deliver(&self.interested, &one), error: None }
            },
            Ingest::Failed(report) => Step { events: Vec::new(), error: Some(report) },
            _ => Step { events: Vec::new(), error: None },
        }
    }

    /// Reports the entries that have settled by time `now`. A terminated
    /// pipeline reports nothing.
    pub fn on_tick(&mut self, now: u64) -> (out: Vec<LogicalEvent>)
        requires
            old(self).wf(),
        ensures
            final(self).wf(),
            final(self)@.interested == old(self)@.interested,
            final(self)@.run == old(self)@.run,
            old(self)@.run is Running ==> {
                &&& final(self)@.debounce == old(self)@.debounce.swept(now)
                &&& out@ == delivered(old(self)@.interested, old(self)@.debounce.due(now))
            },
            old(self)@.run is Terminated ==> final(self)@ == old(self)@ && out@.len() == 0,
    {
        if self.run != RunState::Running {
            return Vec::new();
        }
        let due = self.debouncer.sweep(now);
        deliver(&self.interested, &due)
    }

    /// When the next entry settles, if any is pending.
    pub fn next_deadline(&self) -> (r: Option<u64>)
        ensures
            r is None <==> self@.debounce.entries.len() == 0,
            r matches Some(d) ==> d == self@.debounce.entries[earliest(self@.debounce.entries)].deadline,
            r matches Some(d) ==> forall|i: int|
                0 <= i < self@.debounce.entries.len() ==> d <= #[trigger] self@.debounce.entries[i].deadline,
    {
        self.debouncer.next_deadline()
    }

    /// The raw record stream closed: the watch ends fatally and pending
    /// entries are dropped.
    pub fn on_source_closed(&mut self) -> (t: Termination)
        requires
            old(self).wf(),
        ensures
            final(self).wf(),
            t == Termination::Fatal,
            final(self)@.run == RunState::Terminated(Termination::Fatal),
            final(self)@.debounce.entries.len() == 0,
    {
        self.debouncer.discard();
        self.run = RunState::Terminated(Termination::Fatal);
        Termination::Fatal
    }

    /// The user asked to stop: pending entries are dropped without being
    /// reported.
    pub fn on_interrupt(&mut self) -> (t: Termination)
        requires
            old(self).wf(),
        ensures
            final(self).wf(),
            t == Termination::UserRequested,
            final(self)@.run == RunState::Terminated(Termination::UserRequested),
            final(self)@.debounce.entries.len() == 0,
    {
        self.debouncer.discard();
        self.run = RunState::Terminated(Termination::UserRequested);
        Termination::UserRequested
    }
}

} // verus!
