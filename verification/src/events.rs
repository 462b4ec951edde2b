//! The event model of the shared queue: one immutable fact per log line,
//! with a monotonically increasing id and a payload that depends on the
//! event's type.

use vstd::prelude::*;

verus! {

/// One event of the shared queue log.
///
/// `event_type` is one of `queued`, `playing`, `played`, `failed`, `skip`,
/// `metadata`, `cleared` or `reordered`; events of any other type are kept
/// (their ids still count) but carry no meaning for the projection.
#[derive(Debug, Clone, PartialEq)]
pub struct QueueEvent {
    pub id: u64,
    pub event_type: String,
    pub url: Option<String>,
    pub title: Option<String>,
    pub by: Option<String>,
    pub ref_id: Option<u64>,
    pub order: Option<Vec<u64>>,
}

/// The mathematical value of an event: strings as character sequences.
pub struct EventView {
    pub id: u64,
    pub event_type: Seq<char>,
    pub url: Option<Seq<char>>,
    pub title: Option<Seq<char>>,
    pub by: Option<Seq<char>>,
    pub ref_id: Option<u64>,
    pub order: Option<Seq<u64>>,
}

pub open spec fn opt_string_view(o: &Option<String>) -> Option<Seq<char>> {
    match o {
        Some(ref s) => Some(s@),
        None => None,
    }
}

pub open spec fn opt_vec_view(o: &Option<Vec<u64>>) -> Option<Seq<u64>> {
    match o {
        Some(ref v) => Some(v@),
        None => None,
    }
}

impl View for QueueEvent {
    type V = EventView;

    open spec fn view(&self) -> EventView {
        EventView {
            id: self.id,
            event_type: self.event_type@,
            url: opt_string_view(&self.url),
            title: opt_string_view(&self.title),
            by: opt_string_view(&self.by),
            ref_id: self.ref_id,
            order: opt_vec_view(&self.order),
        }
    }
}

/// The views of a sequence of events.
pub open spec fn events_view(v: Seq<QueueEvent>) -> Seq<EventView> {
    v.map(|i: int, e: QueueEvent| e@)
}

impl QueueEvent {
    /// An event with only an id and a type; payload fields empty.
    pub fn bare(id: u64, event_type: String) -> (r: QueueEvent)
        ensures
            r@ == (EventView {
                id,
                event_type: event_type@,
                url: None,
                title: None,
                by: None,
                ref_id: None,
                order: None,
            }),
    {
        QueueEvent {
            id,
            event_type,
            url: None,
            title: None,
            by: None,
            ref_id: None,
            order: None,
        }
    }

    /// Whether this event's type equals the given name.
    pub fn type_is(&self, name: &str) -> (r: bool)
        ensures
            r == (self@.event_type == name@),
    {
        let n = String::from_str(name);
        self.event_type.eq(&n)
    }
}

} // verus!
