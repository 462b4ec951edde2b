//! The conflict-safe append protocol of the shared log.
//!
//! Writers read the whole log with a version token, compute the next id as
//! one past the largest id present, append one line, and write back
//! conditioned on the token. On a version conflict the caller retries the
//! whole cycle exactly once more; a second conflict surfaces as an error.

use vstd::prelude::*;
use vstd::string::StrSliceExecFns;
use vstd::string::StringExecFns;

use crate::codec::{encode_event, max_event_id, parse_log, spec_encode_event, spec_max_id, spec_parse_log};
use crate::events::{EventView, QueueEvent};

verus! {

/// The id the next event gets, given the parsed log: one past the largest.
pub open spec fn spec_next_id(events: Seq<EventView>) -> int {
    spec_max_id(events) + 1
}

/// Read the log text and compute the next event id; `None` only when the
/// id space is exhausted.
pub fn next_event_id(content: &str) -> (r: Option<u64>)
    ensures
        spec_max_id(spec_parse_log(content@)) < u64::MAX ==> r == Some(
            (spec_max_id(spec_parse_log(content@)) + 1) as u64,
        ),
        spec_max_id(spec_parse_log(content@)) == u64::MAX ==> r is None,
{
    let events = parse_log(content);
    let max = max_event_id(&events);
    if max == u64::MAX {
        None
    } else {
        Some(max + 1)
    }
}

/// The log text with one event's line appended: a newline first if the old
/// text does not end in one, then the encoded event and a final newline.
pub open spec fn spec_append_content(content: Seq<char>, e: EventView) -> Seq<char> {
    let base = if content.len() > 0 && content.last() != '\n' {
        content.push('\n')
    } else {
        content
    };
    base + spec_encode_event(e) + seq!['\n']
}

/// Append the encoded event as one line to the log text.
pub fn append_event_line(content: &str, e: &QueueEvent) -> (r: String)
    ensures
        r@ == spec_append_content(content@, e@),
{
    let n = content.unicode_len();
    let mut out = content.to_owned();
    if n > 0 && content.get_char(n - 1) != '\n' {
        out.push('\n');
    }
    let line = encode_event(e);
    out.append(line.as_str());
    out.push('\n');
    proof {
        assert(out@ =~= spec_append_content(content@, e@));
    }
    out
}

/// Build the event one append writes, given the log text it read: the
/// event's id is one past the largest id in that text. `None` only when
/// the id space is exhausted.
pub fn build_append(content: &str, mut event: QueueEvent) -> (r: Option<(String, u64)>)
    ensures
        match r {
            Some(p) => {
                &&& spec_max_id(spec_parse_log(content@)) < u64::MAX
                &&& p.1 == spec_max_id(spec_parse_log(content@)) + 1
                &&& p.0@ == spec_append_content(
                    content@,
                    EventView { id: p.1, ..event@ },
                )
            },
            None => spec_max_id(spec_parse_log(content@)) == u64::MAX,
        },
{
    let id = match next_event_id(content) {
        Some(id) => id,
        None => {
            return None;
        },
    };
    event.id = id;
    let new_content = append_event_line(content, &event);
    Some((new_content, id))
}

/// The events with only an id and a type and a reference: `played`,
/// `failed` and `skip` all take this shape.
pub fn append_event_with_ref(content: &str, event_type: String, queued_id: u64) -> (r: Option<
    (String, u64),
>)
    ensures
        match r {
            Some(p) => {
                &&& spec_max_id(spec_parse_log(content@)) < u64::MAX
                &&& p.1 == spec_max_id(spec_parse_log(content@)) + 1
                &&& p.0@ == spec_append_content(
                    content@,
                    EventView {
                        id: p.1,
                        event_type: event_type@,
                        url: None,
                        title: None,
                        by: None,
                        ref_id: Some(queued_id),
                        order: None,
                    },
                )
            },
            None => spec_max_id(spec_parse_log(content@)) == u64::MAX,
        },
{
    let mut event = QueueEvent::bare(0, event_type);
    event.ref_id = Some(queued_id);
    build_append(content, event)
}

/// Record that a track's attempt concluded.
pub fn append_played_event(content: &str, queued_id: u64) -> (r: Option<(String, u64)>)
    ensures
        match r {
            Some(p) => {
                &&& spec_max_id(spec_parse_log(content@)) < u64::MAX
                &&& p.1 == spec_max_id(spec_parse_log(content@)) + 1
                &&& p.0@ == spec_append_content(
                    content@,
                    EventView {
                        id: p.1,
                        event_type: "played"@,
                        url: None,
                        title: None,
                        by: None,
                        ref_id: Some(queued_id),
                        order: None,
                    },
                )
            },
            None => spec_max_id(spec_parse_log(content@)) == u64::MAX,
        },
{
    append_event_with_ref(content, String::from_str("played"), queued_id)
}

/// Record that a track could not be resolved.
pub fn append_failed_event(content: &str, queued_id: u64) -> (r: Option<(String, u64)>)
    ensures
        match r {
            Some(p) => {
                &&& spec_max_id(spec_parse_log(content@)) < u64::MAX
                &&& p.1 == spec_max_id(spec_parse_log(content@)) + 1
                &&& p.0@ == spec_append_content(
                    content@,
                    EventView {
                        id: p.1,
                        event_type: "failed"@,
                        url: None,
                        title: None,
                        by: None,
                        ref_id: Some(queued_id),
                        order: None,
                    },
                )
            },
            None => spec_max_id(spec_parse_log(content@)) == u64::MAX,
        },
{
    append_event_with_ref(content, String::from_str("failed"), queued_id)
}

/// Request that the referenced track be skipped.
pub fn append_skip_event(content: &str, queued_id: u64) -> (r: Option<(String, u64)>)
    ensures
        match r {
            Some(p) => {
                &&& spec_max_id(spec_parse_log(content@)) < u64::MAX
                &&& p.1 == spec_max_id(spec_parse_log(content@)) + 1
                &&& p.0@ == spec_append_content(
                    content@,
                    EventView {
                        id: p.1,
                        event_type: "skip"@,
                        url: None,
                        title: None,
                        by: None,
                        ref_id: Some(queued_id),
                        order: None,
                    },
                )
            },
            None => spec_max_id(spec_parse_log(content@)) == u64::MAX,
        },
{
    append_event_with_ref(content, String::from_str("skip"), queued_id)
}

/// Queue a track by URL, with optional attribution.
pub fn append_queue_event(content: &str, url: String, queued_by: Option<String>) -> (r: Option<
    (String, u64),
>)
    ensures
        match r {
            Some(p) => {
                &&& spec_max_id(spec_parse_log(content@)) < u64::MAX
                &&& p.1 == spec_max_id(spec_parse_log(content@)) + 1
                &&& p.0@ == spec_append_content(
                    content@,
                    EventView {
                        id: p.1,
                        event_type: "queued"@,
                        url: Some(url@),
                        title: None,
                        by: crate::events::opt_string_view(&queued_by),
                        ref_id: None,
                        order: None,
                    },
                )
            },
            None => spec_max_id(spec_parse_log(content@)) == u64::MAX,
        },
{
    let mut event = QueueEvent::bare(0, String::from_str("queued"));
    event.url = Some(url);
    event.by = queued_by;
    build_append(content, event)
}

/// Record which track started playing; the event's own id becomes the
/// caller's skip-detection watermark.
pub fn append_playing_event(content: &str, queued_id: u64, title: String, url: String) -> (r:
    Option<(String, u64)>)
    ensures
        match r {
            Some(p) => {
                &&& spec_max_id(spec_parse_log(content@)) < u64::MAX
                &&& p.1 == spec_max_id(spec_parse_log(content@)) + 1
                &&& p.0@ == spec_append_content(
                    content@,
                    EventView {
                        id: p.1,
                        event_type: "playing"@,
                        url: Some(url@),
                        title: Some(title@),
                        by: None,
                        ref_id: Some(queued_id),
                        order: None,
                    },
                )
            },
            None => spec_max_id(spec_parse_log(content@)) == u64::MAX,
        },
{
    let mut event = QueueEvent::bare(0, String::from_str("playing"));
    event.ref_id = Some(queued_id);
    event.title = Some(title);
    event.url = Some(url);
    build_append(content, event)
}

/// Void everything at or below this event's id.
pub fn append_cleared_event(content: &str) -> (r: Option<(String, u64)>)
    ensures
        match r {
            Some(p) => {
                &&& spec_max_id(spec_parse_log(content@)) < u64::MAX
                &&& p.1 == spec_max_id(spec_parse_log(content@)) + 1
                &&& p.0@ == spec_append_content(
                    content@,
                    EventView {
                        id: p.1,
                        event_type: "cleared"@,
                        url: None,
                        title: None,
                        by: None,
                        ref_id: None,
                        order: None,
                    },
                )
            },
            None => spec_max_id(spec_parse_log(content@)) == u64::MAX,
        },
{
    build_append(content, QueueEvent::bare(0, String::from_str("cleared")))
}

/// Record an explicit ordering of the pending ids.
pub fn append_reorder_event(content: &str, order: Vec<u64>) -> (r: Option<(String, u64)>)
    ensures
        match r {
            Some(p) => {
                &&& spec_max_id(spec_parse_log(content@)) < u64::MAX
                &&& p.1 == spec_max_id(spec_parse_log(content@)) + 1
                &&& p.0@ == spec_append_content(
                    content@,
                    EventView {
                        id: p.1,
                        event_type: "reordered"@,
                        url: None,
                        title: None,
                        by: None,
                        ref_id: None,
                        order: Some(order@),
                    },
                )
            },
            None => spec_max_id(spec_parse_log(content@)) == u64::MAX,
        },
{
    let mut event = QueueEvent::bare(0, String::from_str("reordered"));
    event.order = Some(order);
    build_append(content, event)
}

/// Attach a fetched title to a queued id.
pub fn append_metadata_event(content: &str, queued_id: u64, title: String, url: String) -> (r:
    Option<(String, u64)>)
    ensures
        match r {
            Some(p) => {
                &&& spec_max_id(spec_parse_log(content@)) < u64::MAX
                &&& p.1 == spec_max_id(spec_parse_log(content@)) + 1
                &&& p.0@ == spec_append_content(
                    content@,
                    EventView {
                        id: p.1,
                        event_type: "metadata"@,
                        url: Some(url@),
                        title: Some(title@),
                        by: None,
                        ref_id: Some(queued_id),
                        order: None,
                    },
                )
            },
            None => spec_max_id(spec_parse_log(content@)) == u64::MAX,
        },
{
    let mut event = QueueEvent::bare(0, String::from_str("metadata"));
    event.ref_id = Some(queued_id);
    event.title = Some(title);
    event.url = Some(url);
    build_append(content, event)
}

/// Whether a failed write may be retried: only the first attempt is, and
/// only on a version conflict (the store's conflict signal names 409).
pub fn should_retry_append(attempt: usize, conflict: bool) -> (r: bool)
    ensures
        r == (attempt == 0 && conflict),
{
    attempt == 0 && conflict
}

// ---------------------------------------------------------------------
// Monotonic ids
// ---------------------------------------------------------------------
/// No id in the log exceeds the log's maximum id.
pub proof fn lemma_max_id_ge_all(events: Seq<EventView>, i: int)
    requires
        0 <= i < events.len(),
    ensures
        events[i].id <= spec_max_id(events),
    decreases events.len(),
{
    if i < events.len() - 1 {
        lemma_max_id_ge_all(events.drop_last(), i);
        assert(events.drop_last()[i] == events[i]);
    }
}

/// The event as appended: the payload with the assigned id.
pub open spec fn with_id(e: EventView, id: u64) -> EventView {
    EventView { id, ..e }
}

/// The log after appending each payload in turn, each one getting the id
/// one past the maximum of the log it lands on.
pub open spec fn append_all(s: Seq<EventView>, ps: Seq<EventView>) -> Seq<EventView>
    decreases ps.len(),
{
    if ps.len() == 0 {
        s
    } else {
        let s1 = append_all(s, ps.drop_last());
        s1.push(with_id(ps.last(), (spec_max_id(s1) + 1) as u64))
    }
}

/// Monotonic ids: appending `N` payloads through the id-assigning protocol
/// yields `N` new events whose ids are exactly `previous_max + 1`,
/// `previous_max + 2`, ..., `previous_max + N` — pairwise distinct — and
/// raises the log's maximum by exactly `N`. This holds whatever the log
/// looked like when each append recomputed its id, so interleaved writers
/// that re-read after a conflict still obtain distinct, consecutive ids.
pub proof fn lemma_monotonic_ids(s: Seq<EventView>, ps: Seq<EventView>)
    requires
        spec_max_id(s) + ps.len() <= u64::MAX,
    ensures
        append_all(s, ps).len() == s.len() + ps.len(),
        spec_max_id(append_all(s, ps)) == spec_max_id(s) + ps.len(),
        forall|i: int|
            0 <= i < ps.len() ==> #[trigger] append_all(s, ps)[s.len() + i].id == spec_max_id(s)
                + i + 1,
        forall|i: int| 0 <= i < s.len() ==> #[trigger] append_all(s, ps)[i] == s[i],
        forall|i: int, j: int|
            0 <= i < ps.len() && 0 <= j < s.len() ==> #[trigger] append_all(s, ps)[s.len()
                + i].id > (#[trigger] s[j].id),
    decreases ps.len(),
{
    assert forall|j: int| 0 <= j < s.len() implies (#[trigger] s[j].id) <= spec_max_id(s) by {
        lemma_max_id_ge_all(s, j);
    }
    if ps.len() > 0 {
        lemma_monotonic_ids(s, ps.drop_last());
        let s1 = append_all(s, ps.drop_last());
        let id = (spec_max_id(s1) + 1) as u64;
        let s2 = s1.push(with_id(ps.last(), id));
        assert(s2.drop_last() =~= s1);
        assert(s2.last().id == id);
        assert(spec_max_id(s2) == id);
        assert forall|i: int|
            0 <= i < ps.len() implies #[trigger] s2[s.len() + i].id == spec_max_id(s) + i
            + 1 by {
            if i < ps.len() - 1 {
                assert(s2[s.len() + i] == s1[s.len() + i]);
            }
        }
    }
}

} // verus!
