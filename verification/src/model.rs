//! The intermediate representation the solver consumes.
//!
//! A front end lowers source into a flat list of lock-acquisition events; the
//! solver ([`crate::solver`]) turns those into the class-ordering graph.
//! Keeping this representation separate from the surface language lets the
//! solver and its tests construct events directly.

use vstd::prelude::*;

use crate::namemap::NameMap;
use crate::text::{names, Name};

verus! {

/// A program reduced to the only thing the deadlock analysis cares about.
pub struct Program {
    pub name: String,
    pub events: Vec<Event>,
    /// How many distinct lock *instances* are declared for each class. Used to
    /// tell a genuine cross-instance ordering inversion (two instances or more)
    /// apart from single-instance reentrant re-acquisition when explaining a
    /// verdict.
    pub class_instances: NameMap<usize>,
    /// `Some(reason)` if the front end stopped early (hit a scalability budget
    /// or depth limit) and the event list is therefore *partial*. The emitted
    /// events are still sound (every edge is real), so a deadlock found in them
    /// is real, but the *absence* of a deadlock is not conclusive.
    pub incomplete: Option<String>,
}

/// A single lock acquisition at one program point.
pub struct Event {
    pub function: String,
    pub site: String,
    /// Lock classes that may be held when this acquisition happens.
    pub held: Vec<String>,
    /// The lock class being acquired here.
    pub acquires: String,
}

/// The mathematical value of an [`Event`].
pub struct EventV {
    pub function: Name,
    pub site: Name,
    pub held: Seq<Name>,
    pub acquires: Name,
}

/// The mathematical value of a [`Program`].
pub struct ProgramV {
    pub name: Name,
    pub events: Seq<EventV>,
    pub class_instances: Map<Name, usize>,
    pub incomplete: Option<Name>,
}

impl View for Event {
    type V = EventV;

    open spec fn view(&self) -> EventV {
        EventV {
            function: self.function@,
            site: self.site@,
            held: names(self.held@),
            acquires: self.acquires@,
        }
    }
}

/// The values of a sequence of events.
pub open spec fn event_views(v: Seq<Event>) -> Seq<EventV> {
    v.map_values(|e: Event| e@)
}

/// The value of an optional string.
pub open spec fn opt_name(o: Option<String>) -> Option<Name> {
    match o {
        Some(s) => Some(s@),
        None => None,
    }
}

impl View for Program {
    type V = ProgramV;

    open spec fn view(&self) -> ProgramV {
        ProgramV {
            name: self.name@,
            events: event_views(self.events@),
            class_instances: self.class_instances@,
            incomplete: opt_name(self.incomplete),
        }
    }
}

impl Program {
    /// The instance counts are a proper map.
    pub open spec fn wf(&self) -> bool {
        self.class_instances.wf()
    }
}

/// The ordering edge `before < after`: some event acquires `after` while
/// `before` is held.
pub open spec fn has_edge(events: Seq<EventV>, before: Name, after: Name) -> bool {
    exists|i: int|
        0 <= i < events.len() && (#[trigger] events[i]).acquires == after
            && events[i].held.contains(before)
}

}
