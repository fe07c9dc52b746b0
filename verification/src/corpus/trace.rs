//! Locks that record when they are taken.
//!
//! A labeled program of the corpus is run against these: what it does to the
//! trace is what an analysis of it has to account for.

use vstd::prelude::*;

use crate::events::{critical_section, names_without, without};
use crate::model::{event_views, Event, EventV, Program, ProgramV};
use crate::namemap::NameMap;
use crate::text::{clone_names, names, Name};

verus! {

/// A value that is protected by a lock. Every lock has a number of its own.
pub struct Mutex<T> {
    pub id: usize,
    pub value: T,
}

/// A value that is protected by a lock with readers and writers. Both kinds of
/// acquisition count as exclusive.
pub struct RwLock<T> {
    pub id: usize,
    pub value: T,
}

/// What one thread holds, and the acquisitions made so far.
pub struct Trace {
    /// The classes of the locks, the last one taken last.
    pub held: Vec<String>,
    /// Which locks these are; the critical section is none.
    pub taken: Vec<Option<usize>>,
    pub events: Vec<Event>,
}

/// The mathematical value of a [`Trace`].
pub struct TraceV {
    pub held: Seq<Name>,
    pub taken: Seq<Option<usize>>,
    pub events: Seq<EventV>,
}

impl View for Trace {
    type V = TraceV;

    open spec fn view(&self) -> TraceV {
        TraceV {
            held: names(self.held@),
            taken: self.taken@,
            events: event_views(self.events@),
        }
    }
}

/// The thread does not hold the lock number `id`. Where it does, a lock that is
/// not reentrant would never be granted.
pub open spec fn is_free(t: TraceV, id: usize) -> bool {
    !t.taken.contains(Some(id))
}

/// The acquisition of `class` by `function` at `site` with `held` held.
pub open spec fn acquired(function: Name, site: Name, held: Seq<Name>, class: Name) -> EventV {
    EventV { function, site, held, acquires: class }
}

/// The critical section entered by `function` at `site` with `held` held.
pub open spec fn entered(function: Name, site: Name, held: Seq<Name>) -> EventV {
    EventV {
        function,
        site,
        held: without(held, critical_section()),
        acquires: critical_section(),
    }
}

/// The trace with more acquisitions, and the same locks held as before.
pub open spec fn extended(t: TraceV, events: Seq<EventV>) -> TraceV {
    TraceV { events: t.events + events, ..t }
}

impl Trace {
    /// Nothing held, nothing recorded.
    pub fn new() -> (r: Trace)
        ensures
            r@ == (TraceV { held: Seq::empty(), taken: Seq::empty(), events: Seq::empty() }),
    {
        let r = Trace { held: Vec::new(), taken: Vec::new(), events: Vec::new() };
        assert(names(r.held@) =~= Seq::empty());
        assert(event_views(r.events@) =~= Seq::empty());
        r
    }

    /// Records that a lock of the class `class` is asked for.
    fn ask(&mut self, function: &str, site: &str, class: &str)
        ensures
            final(self)@ == (TraceV {
                events: old(self)@.events.push(
                    acquired(function@, site@, old(self)@.held, class@),
                ),
                ..old(self)@
            }),
    {
        let ghost before = self@;
        let e = Event {
            function: function.to_string(),
            site: site.to_string(),
            held: clone_names(&self.held),
            acquires: class.to_string(),
        };
        self.events.push(e);
        assert(event_views(self.events@) =~= before.events.push(e@));
    }

    /// Takes the lock number `id` of the class `class`.
    pub fn acquire(&mut self, function: &str, site: &str, class: &str, id: usize)
        requires
            is_free(old(self)@, id),
        ensures
            final(self)@ == (TraceV {
                held: old(self)@.held.push(class@),
                taken: old(self)@.taken.push(Some(id)),
                events: old(self)@.events.push(
                    acquired(function@, site@, old(self)@.held, class@),
                ),
            }),
    {
        let ghost before = self@;
        self.ask(function, site, class);
        self.held.push(class.to_string());
        self.taken.push(Some(id));
        assert(names(self.held@) =~= before.held.push(class@));
    }

    /// Enters the critical section. It is reentrant: entering it inside itself
    /// orders nothing.
    pub fn enter(&mut self, function: &str, site: &str)
        ensures
            final(self)@ == (TraceV {
                held: old(self)@.held.push(critical_section()),
                taken: old(self)@.taken.push(None),
                events: old(self)@.events.push(entered(function@, site@, old(self)@.held)),
            }),
    {
        let ghost before = self@;
        let e = Event {
            function: function.to_string(),
            site: site.to_string(),
            held: names_without(&self.held, "<critical-section>"),
            acquires: "<critical-section>".to_string(),
        };
        self.events.push(e);
        self.held.push("<critical-section>".to_string());
        self.taken.push(None);
        assert(event_views(self.events@) =~= before.events.push(e@));
        assert(names(self.held@) =~= before.held.push(critical_section()));
    }

    /// Releases the lock that was taken last, or leaves the critical section.
    pub fn release(&mut self)
        requires
            old(self)@.held.len() > 0,
            old(self)@.taken.len() > 0,
        ensures
            final(self)@ == (TraceV {
                held: old(self)@.held.drop_last(),
                taken: old(self)@.taken.drop_last(),
                events: old(self)@.events,
            }),
    {
        let ghost before = self@;
        let _ = self.held.pop();
        let _ = self.taken.pop();
        assert(names(self.held@) =~= before.held.drop_last());
    }

    /// The recorded acquisitions as a program.
    pub fn into_program(self, name: &str) -> (r: Program)
        ensures
            r.wf(),
            r@ == (ProgramV {
                name: name@,
                events: self@.events,
                class_instances: Map::empty(),
                incomplete: None,
            }),
    {
        Program {
            name: name.to_string(),
            events: self.events,
            class_instances: NameMap::new(),
            incomplete: None,
        }
    }
}

impl<T> Mutex<T> {
    /// Takes the lock.
    pub fn lock(&self, t: &mut Trace, function: &str, site: &str, class: &str) -> (r: &T)
        requires
            is_free(old(t)@, self.id),
        ensures
            *r == self.value,
            final(t)@ == (TraceV {
                held: old(t)@.held.push(class@),
                taken: old(t)@.taken.push(Some(self.id)),
                events: old(t)@.events.push(acquired(function@, site@, old(t)@.held, class@)),
            }),
    {
        t.acquire(function, site, class, self.id);
        &self.value
    }
}

/// A thread that waits for itself forever, and where.
pub struct Stuck {
    pub site: String,
}

impl<T> Mutex<T> {
    /// Takes a lock that the thread holds. The lock is not reentrant, so it is
    /// never granted: the thread goes no further, and holds what it holds.
    pub fn lock_again(&self, t: &mut Trace, function: &str, site: &str, class: &str) -> (r: Stuck)
        requires
            !is_free(old(t)@, self.id),
        ensures
            r.site@ == site@,
            final(t)@ == extended(
                old(t)@,
                seq![acquired(function@, site@, old(t)@.held, class@)],
            ),
    {
        let ghost before = t@;
        t.ask(function, site, class);
        assert(t@.events =~= before.events + seq![
            acquired(function@, site@, before.held, class@),
        ]);
        Stuck { site: site.to_string() }
    }

    /// Takes the lock and sets what it protects.
    pub fn lock_and_set(
        &mut self,
        t: &mut Trace,
        function: &str,
        site: &str,
        class: &str,
        value: T,
    )
        requires
            is_free(old(t)@, old(self).id),
        ensures
            *final(self) == (Mutex { value, ..*old(self) }),
            final(t)@ == (TraceV {
                held: old(t)@.held.push(class@),
                taken: old(t)@.taken.push(Some(old(self).id)),
                events: old(t)@.events.push(acquired(function@, site@, old(t)@.held, class@)),
            }),
    {
        t.acquire(function, site, class, self.id);
        self.value = value;
    }
}

impl<T> RwLock<T> {
    /// Takes the lock for reading.
    pub fn read(&self, t: &mut Trace, function: &str, site: &str, class: &str) -> (r: &T)
        requires
            is_free(old(t)@, self.id),
        ensures
            *r == self.value,
            final(t)@ == (TraceV {
                held: old(t)@.held.push(class@),
                taken: old(t)@.taken.push(Some(self.id)),
                events: old(t)@.events.push(acquired(function@, site@, old(t)@.held, class@)),
            }),
    {
        t.acquire(function, site, class, self.id);
        &self.value
    }

    /// Takes the lock for writing.
    pub fn write(&self, t: &mut Trace, function: &str, site: &str, class: &str) -> (r: &T)
        requires
            is_free(old(t)@, self.id),
        ensures
            *r == self.value,
            final(t)@ == (TraceV {
                held: old(t)@.held.push(class@),
                taken: old(t)@.taken.push(Some(self.id)),
                events: old(t)@.events.push(acquired(function@, site@, old(t)@.held, class@)),
            }),
    {
        t.acquire(function, site, class, self.id);
        &self.value
    }
}

}
