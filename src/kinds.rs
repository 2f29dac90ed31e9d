use vstd::prelude::*;

use crate::record::LogicalEvent;

verus! {

/// The five kinds of change that are reported to the user.
#[derive(Clone, Copy, Debug, PartialEq, Eq, Structural)]
pub enum EventKind {
    Create,
    Write,
    Chmod,
    Remove,
    Rename,
}

/// A fixed-size set over the closed `EventKind` enumeration.
#[derive(Clone, Copy, Debug, PartialEq, Eq, Structural)]
pub struct KindSet {
    pub create: bool,
    pub write: bool,
    pub chmod: bool,
    pub remove: bool,
    pub rename: bool,
}

impl KindSet {
    pub open spec fn has(self, k: EventKind) -> bool {
        match k {
            EventKind::Create => self.create,
            EventKind::Write => self.write,
            EventKind::Chmod => self.chmod,
            EventKind::Remove => self.remove,
            EventKind::Rename => self.rename,
        }
    }

    pub open spec fn view(self) -> Set<EventKind> {
        Set::new(|k: EventKind| self.has(k))
    }

    pub fn contains(&self, k: EventKind) -> (r: bool)
        ensures
            r == self.has(k),
            r == self@.contains(k),
    {
        match k {
            EventKind::Create => self.create,
            EventKind::Write => self.write,
            EventKind::Chmod => self.chmod,
            EventKind::Remove => self.remove,
            EventKind::Rename => self.rename,
        }
    }

    pub open spec fn only(k: EventKind) -> KindSet {
        KindSet {
            create: k == EventKind::Create,
            write: k == EventKind::Write,
            chmod: k == EventKind::Chmod,
            remove: k == EventKind::Remove,
            rename: k == EventKind::Rename,
        }
    }

    pub open spec fn none() -> KindSet {
        KindSet { create: false, write: false, chmod: false, remove: false, rename: false }
    }

    pub open spec fn full() -> KindSet {
        KindSet { create: true, write: true, chmod: true, remove: true, rename: true }
    }

    pub open spec fn union(self, o: KindSet) -> KindSet {
        KindSet {
            create: self.create || o.create,
            write: self.write || o.write,
            chmod: self.chmod || o.chmod,
            remove: self.remove || o.remove,
            rename: self.rename || o.rename,
        }
    }

    /// The set with no kind in it.
    pub fn empty() -> (r: KindSet)
        ensures
            r == KindSet::none(),
            forall|k: EventKind| !r.has(k),
            r@ == Set::<EventKind>::empty(),
    {
        let r = KindSet { create: false, write: false, chmod: false, remove: false, rename: false };
        assert(r@ =~= Set::<EventKind>::empty());
        r
    }

    /// The set of all five kinds, what the name `all` stands for.
    pub fn all() -> (r: KindSet)
        ensures
            r == KindSet::full(),
            forall|k: EventKind| r.has(k),
            r@ == Set::<EventKind>::full(),
    {
        let r = KindSet { create: true, write: true, chmod: true, remove: true, rename: true };
        assert(r@ =~= Set::<EventKind>::full());
        r
    }

    /// The set holding `k` alone.
    pub fn single(k: EventKind) -> (r: KindSet)
        ensures
            r == KindSet::only(k),
            forall|j: EventKind| r.has(j) <==> j == k,
    {
        KindSet {
            create: k == EventKind::Create,
            write: k == EventKind::Write,
            chmod: k == EventKind::Chmod,
            remove: k == EventKind::Remove,
            rename: k == EventKind::Rename,
        }
    }

    /// The kinds in either set.
    pub fn union_with(&self, o: KindSet) -> (r: KindSet)
        ensures
            r == self.union(o),
    {
        KindSet {
            create: self.create || o.create,
            write: self.write || o.write,
            chmod: self.chmod || o.chmod,
            remove: self.remove || o.remove,
            rename: self.rename || o.rename,
        }
    }

    /// Adds `k` to the set.
    pub fn insert(&mut self, k: EventKind)
        ensures
            *final(self) == old(self).union(KindSet::only(k)),
            forall|j: EventKind| final(self).has(j) <==> (old(self).has(j) || j == k),
    {
        match k {
            EventKind::Create => self.create = true,
            EventKind::Write => self.write = true,
            EventKind::Chmod => self.chmod = true,
            EventKind::Remove => self.remove = true,
            EventKind::Rename => self.rename = true,
        }
    }

    /// The filter applied to one event: the event itself, unchanged, when its
    /// kind is in the set; nothing otherwise.
    pub open spec fn pass(self, e: LogicalEvent) -> Option<LogicalEvent> {
        if self.has(e.kind) {
            Some(e)
        } else {
            None
        }
    }

    pub fn keep_event(&self, e: LogicalEvent) -> (r: Option<LogicalEvent>)
        ensures
            r == self.pass(e),
    {
        if self.contains(e.kind) {
            Some(e)
        } else {
            None
        }
    }

    /// The events of `s` whose kind is in the set, in their order.
    pub open spec fn passing(self, s: Seq<LogicalEvent>) -> Seq<LogicalEvent> {
        s.filter(|e: LogicalEvent| self.has(e.kind))
    }

    /// Keeps the events whose kind is in the set, in their order.
    pub fn filter_events(&self, events: &Vec<LogicalEvent>) -> (r: Vec<LogicalEvent>)
        ensures
            r@ == self.passing(events@),
    {
        let mut r: Vec<LogicalEvent> = Vec::new();
        let mut i: usize = 0;
        while i < events.len()
            invariant
                i <= events@.len(),
                r@ == self.passing(events@.take(i as int)),
            decreases events@.len() - i,
        {
            proof {
                let pred = |e: LogicalEvent| self.has(e.kind);
                events@.take(i as int).lemma_filter_push(events@[i as int], pred);
                assert(events@.take(i as int + 1) =~= events@.take(i as int).push(events@[i as int]));
            }
            if self.contains(events[i].kind) {
                r.push(events[i].duplicate());
            }
            i = i + 1;
        }
        assert(events@.take(events@.len() as int) =~= events@);
        r
    }
}

/// The kinds that a requested operation name stands for.
pub open spec fn kinds_named(name: Seq<char>) -> Option<KindSet> {
    if name == "all"@ {
        Some(KindSet::full())
    } else if name == "create"@ {
        Some(KindSet::only(EventKind::Create))
    } else if name == "write"@ {
        Some(KindSet::only(EventKind::Write))
    } else if name == "chmod"@ {
        Some(KindSet::only(EventKind::Chmod))
    } else if name == "remove"@ {
        Some(KindSet::only(EventKind::Remove))
    } else if name == "rename"@ {
        Some(KindSet::only(EventKind::Rename))
    } else {
        None
    }
}

/// Whether two strings hold the same characters.
pub fn same_text(a: &str, b: &str) -> (r: bool)
    ensures
        r == (a@ == b@),
{
    let n = a.unicode_len();
    if n != b.unicode_len() {
        return false;
    }
    let mut i: usize = 0;
    while i < n
        invariant
            n == a@.len(),
            n == b@.len(),
            i <= n,
            a@.take(i as int) == b@.take(i as int),
        decreases n - i,
    {
        if a.get_char(i) != b.get_char(i) {
            return false;
        }
        assert(a@.take(i as int + 1) =~= a@.take(i as int).push(a@[i as int]));
        assert(b@.take(i as int + 1) =~= b@.take(i as int).push(b@[i as int]));
        i = i + 1;
    }
    assert(a@ =~= a@.take(n as int));
    assert(b@ =~= b@.take(n as int));
    true
}

/// The kinds that one operation name stands for: `all` stands for the five.
pub fn parse_kind_name(name: &str) -> (r: Option<KindSet>)
    ensures
        r == kinds_named(name@),
{
    proof {
        reveal_strlit("all");
        reveal_strlit("create");
        reveal_strlit("write");
        reveal_strlit("chmod");
        reveal_strlit("remove");
        reveal_strlit("rename");
    }
    if same_text(name, "all") {
        Some(KindSet::all())
    } else if same_text(name, "create") {
        Some(KindSet::single(EventKind::Create))
    } else if same_text(name, "write") {
        Some(KindSet::single(EventKind::Write))
    } else if same_text(name, "chmod") {
        Some(KindSet::single(EventKind::Chmod))
    } else if same_text(name, "remove") {
        Some(KindSet::single(EventKind::Remove))
    } else if same_text(name, "rename") {
        Some(KindSet::single(EventKind::Rename))
    } else {
        None
    }
}

/// The union of the kinds that the names stand for; `None` when one of the
/// names is none of them.
pub open spec fn kinds_of_names(names: Seq<Seq<char>>) -> Option<KindSet>
    decreases names.len(),
{
    if names.len() == 0 {
        Some(KindSet::none())
    } else {
        match (kinds_of_names(names.drop_last()), kinds_named(names.last())) {
            (Some(a), Some(b)) => Some(a.union(b)),
            _ => None,
        }
    }
}

/// The set of interesting kinds that a list of requested operation names
/// selects.
pub fn parse_kind_names(names: &Vec<String>) -> (r: Option<KindSet>)
    ensures
        r == kinds_of_names(names@.map_values(|s: String| s@)),
{
    let ghost views = names@.map_values(|s: String| s@);
    let mut acc = KindSet::empty();
    let mut i: usize = 0;
    assert(views.take(0) =~= Seq::<Seq<char>>::empty());
    while i < names.len()
        invariant
            i <= names@.len(),
            views == names@.map_values(|s: String| s@),
            kinds_of_names(views.take(i as int)) == Some(acc),
        decreases names@.len() - i,
    {
        assert(views.take(i as int + 1).drop_last() =~= views.take(i as int));
        match parse_kind_name(names[i].as_str()) {
            Some(k) => {
                acc = acc.union_with(k);
            },
            None => {
                assert(kinds_of_names(views.take(i as int + 1)) == None::<KindSet>);
                assert(kinds_of_names(views) == None::<KindSet>) by {
                    lemma_unknown_name_spoils(views, i as int);
                }
                return None;
            },
        }
        i = i + 1;
    }
    assert(views.take(names@.len() as int) =~= views);
    Some(acc)
}

proof fn lemma_unknown_name_spoils(names: Seq<Seq<char>>, i: int)
    requires
        0 <= i < names.len(),
        kinds_of_names(names.take(i + 1)) == None::<KindSet>,
    ensures
        kinds_of_names(names) == None::<KindSet>,
    decreases names.len(),
{
    if names.len() > i + 1 {
        assert(names.drop_last().take(i + 1) =~= names.take(i + 1));
        lemma_unknown_name_spoils(names.drop_last(), i);
    } else {
        assert(names.take(i + 1) =~= names);
    }
}

} // verus!
