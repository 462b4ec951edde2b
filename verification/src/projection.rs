//! The projection: a pure fold of the event log into the derived queue
//! state — pending items, the current track, the clear watermark, skip
//! requests, titles still to fetch, and the history of finished tracks.
//!
//! All derived state is a left fold over the events in log order; nothing
//! here reads a clock or anything outside the event sequence, so projecting
//! the same events twice always yields the same state.

use vstd::prelude::*;

use crate::events::{EventView, QueueEvent, events_view};

verus! {

// ---------------------------------------------------------------------
// Derived data types
// ---------------------------------------------------------------------
/// A pending track, rebuilt from the log on every refresh.
#[derive(Debug, Clone, PartialEq)]
pub struct QueuedTrack {
    pub url: String,
    pub title: String,
    pub queued_id: Option<u64>,
    pub queued_by: Option<String>,
}

pub struct TrackView {
    pub url: Seq<char>,
    pub title: Seq<char>,
    pub queued_id: Option<u64>,
    pub queued_by: Option<Seq<char>>,
}

impl View for QueuedTrack {
    type V = TrackView;

    open spec fn view(&self) -> TrackView {
        TrackView {
            url: self.url@,
            title: self.title@,
            queued_id: self.queued_id,
            queued_by: crate::events::opt_string_view(&self.queued_by),
        }
    }
}

/// The current track of the shared queue, with the id of its `queued`
/// event when known.
#[derive(Debug, Clone, PartialEq)]
pub struct SharedNowPlayingInfo {
    pub title: String,
    pub url: String,
    pub queued_id: Option<u64>,
}

pub struct NowView {
    pub title: Seq<char>,
    pub url: Seq<char>,
    pub queued_id: Option<u64>,
}

impl View for SharedNowPlayingInfo {
    type V = NowView;

    open spec fn view(&self) -> NowView {
        NowView { title: self.title@, url: self.url@, queued_id: self.queued_id }
    }
}

/// Everything the fold derives from the log.
#[derive(Debug, Clone, PartialEq)]
pub struct SharedQueueData {
    pub items: Vec<QueuedTrack>,
    pub now_playing: Option<SharedNowPlayingInfo>,
    pub max_id: u64,
    pub skip_events: Vec<(u64, u64)>,
    pub needs_metadata: Vec<(u64, String)>,
    pub history: Vec<(String, Option<String>, Option<String>)>,
}

#[verifier::ext_equal]
pub struct DataView {
    pub items: Seq<TrackView>,
    pub now_playing: Option<NowView>,
    pub max_id: u64,
    pub skip_events: Seq<(u64, u64)>,
    pub needs_metadata: Seq<(u64, Seq<char>)>,
    pub history: Seq<(Seq<char>, Option<Seq<char>>, Option<Seq<char>>)>,
}

pub open spec fn tracks_view(v: Seq<QueuedTrack>) -> Seq<TrackView> {
    v.map(|i: int, t: QueuedTrack| t@)
}

pub open spec fn pairs_view(v: Seq<(u64, String)>) -> Seq<(u64, Seq<char>)> {
    v.map(|i: int, p: (u64, String)| (p.0, p.1@))
}

pub open spec fn history_view(v: Seq<(String, Option<String>, Option<String>)>) -> Seq<
    (Seq<char>, Option<Seq<char>>, Option<Seq<char>>),
> {
    v.map(
        |i: int, h: (String, Option<String>, Option<String>)|
            (h.0@, crate::events::opt_string_view(&h.1), crate::events::opt_string_view(&h.2)),
    )
}

impl View for SharedQueueData {
    type V = DataView;

    open spec fn view(&self) -> DataView {
        DataView {
            items: tracks_view(self.items@),
            now_playing: match self.now_playing {
                Some(ref n) => Some(n@),
                None => None,
            },
            max_id: self.max_id,
            skip_events: self.skip_events@,
            needs_metadata: pairs_view(self.needs_metadata@),
            history: history_view(self.history@),
        }
    }
}

// ---------------------------------------------------------------------
// Association lists and id sets
// ---------------------------------------------------------------------
/// Look a key up in an association list; the latest entry wins.
pub open spec fn assoc_get<V>(s: Seq<(u64, V)>, k: u64) -> Option<V>
    decreases s.len(),
{
    if s.len() == 0 {
        None
    } else if s.last().0 == k {
        Some(s.last().1)
    } else {
        assoc_get(s.drop_last(), k)
    }
}

/// The set of ids in a sequence.
pub open spec fn id_set(s: Seq<u64>) -> Set<u64> {
    Set::new(|x: u64| s.contains(x))
}

pub proof fn lemma_id_set_push(s: Seq<u64>, v: u64)
    ensures
        id_set(s.push(v)) == id_set(s).insert(v),
{
    assert forall|x: u64| id_set(s.push(v)).contains(x) == id_set(s).insert(v).contains(x) by {
        if x == v {
            assert(s.push(v)[s.len() as int] == v);
            assert(s.push(v).contains(v));
        } else {
            if s.push(v).contains(x) {
                let i = choose|i: int| 0 <= i < s.push(v).len() && s.push(v)[i] == x;
                assert(s[i] == x);
                assert(s.contains(x));
            }
            if s.contains(x) {
                let i = choose|i: int| 0 <= i < s.len() && s[i] == x;
                assert(s.push(v)[i] == x);
                assert(s.push(v).contains(x));
            }
        }
    }
    assert(id_set(s.push(v)) =~= id_set(s).insert(v));
}

/// Exec lookup in a `u64`-valued association list.
pub fn assoc_lookup_u64(v: &Vec<(u64, u64)>, k: u64) -> (r: Option<u64>)
    ensures
        r == assoc_get(v@, k),
{
    let mut j: usize = v.len();
    proof {
        assert(v@.subrange(0, v@.len() as int) =~= v@);
    }
    while j > 0
        invariant
            j <= v@.len(),
            assoc_get(v@, k) == assoc_get(v@.subrange(0, j as int), k),
        decreases j,
    {
        proof {
            assert(v@.subrange(0, j as int).last() == v@[j - 1]);
            assert(v@.subrange(0, j as int).drop_last() =~= v@.subrange(0, j - 1));
        }
        if v[j - 1].0 == k {
            return Some(v[j - 1].1);
        }
        j = j - 1;
    }
    proof {
        assert(v@.subrange(0, 0) =~= Seq::<(u64, u64)>::empty());
    }
    None
}

/// Exec lookup in a `String`-valued association list; the value is cloned.
fn assoc_lookup_string(v: &Vec<(u64, String)>, k: u64) -> (r: Option<String>)
    ensures
        match r {
            Some(s) => assoc_get(pairs_view(v@), k) == Some(s@),
            None => assoc_get(pairs_view(v@), k) is None,
        },
{
    let ghost pv = pairs_view(v@);
    let mut j: usize = v.len();
    proof {
        assert(pv.subrange(0, pv.len() as int) =~= pv);
    }
    while j > 0
        invariant
            j <= v@.len(),
            pv == pairs_view(v@),
            assoc_get(pv, k) == assoc_get(pv.subrange(0, j as int), k),
        decreases j,
    {
        proof {
            assert(pv.subrange(0, j as int).last() == pv[j - 1]);
            assert(pv.subrange(0, j as int).drop_last() =~= pv.subrange(0, j - 1));
        }
        if v[j - 1].0 == k {
            return Some(v[j - 1].1.clone());
        }
        j = j - 1;
    }
    proof {
        assert(pv.subrange(0, 0) =~= Seq::<(u64, Seq<char>)>::empty());
    }
    None
}

/// Exec membership test on a list of ids.
fn ids_contain(v: &Vec<u64>, k: u64) -> (r: bool)
    ensures
        r == id_set(v@).contains(k),
{
    let mut i: usize = 0;
    while i < v.len()
        invariant
            i <= v@.len(),
            forall|j: int| 0 <= j < i ==> v@[j] != k,
        decreases v@.len() - i,
    {
        if v[i] == k {
            return true;
        }
        i = i + 1;
    }
    proof {
        if v@.contains(k) {
            let j = choose|j: int| 0 <= j < v@.len() && v@[j] == k;
            assert(false);
        }
    }
    false
}

// ---------------------------------------------------------------------
// Stable insertion sort on key-value pairs
// ---------------------------------------------------------------------
/// Insert `x` into an already sorted sequence, after any equal keys.
pub open spec fn spec_sorted_insert<V>(s: Seq<(u64, V)>, x: (u64, V)) -> Seq<(u64, V)>
    decreases s.len(),
{
    if s.len() == 0 {
        seq![x]
    } else if x.0 < s[0].0 {
        seq![x] + s
    } else {
        seq![s[0]] + spec_sorted_insert(s.drop_first(), x)
    }
}

/// Stable sort by key: insert the elements in order.
pub open spec fn spec_sort_pairs<V>(s: Seq<(u64, V)>) -> Seq<(u64, V)>
    decreases s.len(),
{
    if s.len() == 0 {
        s
    } else {
        spec_sorted_insert(spec_sort_pairs(s.drop_last()), s.last())
    }
}

pub(crate) proof fn lemma_sorted_insert_len<V>(s: Seq<(u64, V)>, x: (u64, V))
    ensures
        spec_sorted_insert(s, x).len() == s.len() + 1,
    decreases s.len(),
{
    if s.len() > 0 && !(x.0 < s[0].0) {
        lemma_sorted_insert_len(s.drop_first(), x);
    }
}

/// Sorting neither adds nor drops entries.
pub(crate) proof fn lemma_sort_pairs_len<V>(s: Seq<(u64, V)>)
    ensures
        spec_sort_pairs(s).len() == s.len(),
    decreases s.len(),
{
    if s.len() > 0 {
        lemma_sort_pairs_len(s.drop_last());
        lemma_sorted_insert_len(spec_sort_pairs(s.drop_last()), s.last());
    }
}

/// Where the insertion lands: before the first strictly larger key.
proof fn lemma_sorted_insert_at<V>(s: Seq<(u64, V)>, x: (u64, V), idx: int)
    requires
        0 <= idx <= s.len(),
        forall|j: int| 0 <= j < idx ==> !(x.0 < (#[trigger] s[j]).0),
        idx < s.len() ==> x.0 < s[idx as int].0,
    ensures
        spec_sorted_insert(s, x) == s.subrange(0, idx) + seq![x] + s.subrange(
            idx,
            s.len() as int,
        ),
    decreases s.len(),
{
    if s.len() == 0 {
        assert(spec_sorted_insert(s, x) =~= s.subrange(0, idx) + seq![x] + s.subrange(
            idx,
            s.len() as int,
        ));
    } else if idx == 0 {
        assert(spec_sorted_insert(s, x) =~= s.subrange(0, 0) + seq![x] + s.subrange(
            0,
            s.len() as int,
        ));
    } else {
        let t = s.drop_first();
        assert(forall|j: int| 0 <= j < idx - 1 ==> !(x.0 < (#[trigger] t[j]).0)) by {
            assert(forall|j: int| 0 <= j < idx - 1 ==> t[j] == s[j + 1]);
        }
        lemma_sorted_insert_at(t, x, idx - 1);
        assert(seq![s[0]] + (t.subrange(0, idx - 1) + seq![x] + t.subrange(
            idx - 1,
            t.len() as int,
        )) =~= s.subrange(0, idx) + seq![x] + s.subrange(idx, s.len() as int));
    }
}

/// The position where a stable insert of `key` lands: before the first
/// strictly larger key.
fn insert_pos<V>(v: &Vec<(u64, V)>, key: u64) -> (r: usize)
    ensures
        r <= v@.len(),
        forall|j: int| 0 <= j < r ==> !(key < (#[trigger] v@[j]).0),
        r < v@.len() ==> key < v@[r as int].0,
{
    let mut idx: usize = 0;
    while idx < v.len()
        invariant
            idx <= v@.len(),
            forall|j: int| 0 <= j < idx ==> !(key < (#[trigger] v@[j]).0),
        decreases v@.len() - idx,
    {
        if key < v[idx].0 {
            return idx;
        }
        idx = idx + 1;
    }
    idx
}

/// Exec stable insert into a sorted vector of pairs.
fn sorted_insert<V>(out: &mut Vec<(u64, V)>, x: (u64, V))
    ensures
        final(out)@ == spec_sorted_insert(old(out)@, x),
{
    let idx = insert_pos(out, x.0);
    proof {
        lemma_sorted_insert_at(out@, x, idx as int);
    }
    out.insert(idx, x);
    proof {
        assert(out@ =~= old(out)@.subrange(0, idx as int) + seq![x] + old(out)@.subrange(
            idx as int,
            old(out)@.len() as int,
        ));
    }
}

/// Exec stable sort of a vector of pairs by key.
pub(crate) fn sort_pairs<V>(v: Vec<(u64, V)>) -> (r: Vec<(u64, V)>)
    ensures
        r@ == spec_sort_pairs(v@),
{
    let ghost full = v@;
    let mut out: Vec<(u64, V)> = Vec::new();
    let mut src = v;
    proof {
        assert(full.subrange(0, 0) =~= Seq::<(u64, V)>::empty());
        assert(src@ =~= full.subrange(0, full.len() as int));
    }
    while src.len() > 0
        invariant
            src@.len() <= full.len(),
            src@ == full.subrange(full.len() - src@.len(), full.len() as int),
            out@ == spec_sort_pairs(full.subrange(0, full.len() - src@.len())),
        decreases src@.len(),
    {
        let ghost k = full.len() - src@.len();
        let x = src.remove(0);
        proof {
            assert(x == full[k as int]);
            assert(src@ =~= full.subrange(k as int + 1, full.len() as int));
            assert(full.subrange(0, k as int + 1).drop_last() =~= full.subrange(0, k as int));
            assert(full.subrange(0, k as int + 1).last() == full[k as int]);
        }
        sorted_insert(&mut out, x);
    }
    proof {
        assert(full.subrange(0, full.len() as int) =~= full);
    }
    out
}

// ---------------------------------------------------------------------
// The fold
// ---------------------------------------------------------------------
/// The accumulated state of the fold over the log.
pub struct ProjectionModel {
    pub max_id: u64,
    pub queued: Seq<(u64, Seq<char>)>,
    pub played: Set<u64>,
    pub failed: Set<u64>,
    pub skips: Seq<(u64, u64)>,
    pub metadata: Seq<(u64, Seq<char>)>,
    pub queued_by: Seq<(u64, Seq<char>)>,
    pub cleared: u64,
    pub now: Option<(Seq<char>, Seq<char>, Option<u64>)>,
    pub reorder: Option<Seq<u64>>,
}

pub open spec fn init_model() -> ProjectionModel {
    ProjectionModel {
        max_id: 0,
        queued: Seq::empty(),
        played: Set::empty(),
        failed: Set::empty(),
        skips: Seq::empty(),
        metadata: Seq::empty(),
        queued_by: Seq::empty(),
        cleared: 0,
        now: None,
        reorder: None,
    }
}

/// How one event changes the fold state.
///
/// Every event raises the running maximum id. `queued` registers a
/// candidate (with attribution when given); `played` and `failed` mark
/// the referenced id finished; `playing` sets the current track; `skip`
/// records, per referenced id, the id of the skip event itself; `metadata`
/// attaches a title; `cleared` voids everything at or below its own id;
/// `reordered` keeps the latest explicit ordering. Events with a missing
/// payload, or of an unknown type, only raise the maximum id.
pub open spec fn apply_event(m: ProjectionModel, e: EventView) -> ProjectionModel {
    let m1 = ProjectionModel {
        max_id: if e.id > m.max_id {
            e.id
        } else {
            m.max_id
        },
        ..m
    };
    if e.event_type == "queued"@ {
        match e.url {
            Some(url) => ProjectionModel {
                queued: m1.queued.push((e.id, url)),
                queued_by: match e.by {
                    Some(b) => m1.queued_by.push((e.id, b)),
                    None => m1.queued_by,
                },
                ..m1
            },
            None => m1,
        }
    } else if e.event_type == "played"@ {
        match e.ref_id {
            Some(r) => ProjectionModel { played: m1.played.insert(r), ..m1 },
            None => m1,
        }
    } else if e.event_type == "failed"@ {
        match e.ref_id {
            Some(r) => ProjectionModel { failed: m1.failed.insert(r), ..m1 },
            None => m1,
        }
    } else if e.event_type == "playing"@ {
        match (e.title, e.url) {
            (Some(t), Some(u)) => ProjectionModel { now: Some((t, u, e.ref_id)), ..m1 },
            _ => m1,
        }
    } else if e.event_type == "skip"@ {
        match e.ref_id {
            Some(r) => ProjectionModel { skips: m1.skips.push((r, e.id)), ..m1 },
            None => m1,
        }
    } else if e.event_type == "metadata"@ {
        match (e.ref_id, e.title) {
            (Some(r), Some(t)) => ProjectionModel { metadata: m1.metadata.push((r, t)), ..m1 },
            _ => m1,
        }
    } else if e.event_type == "cleared"@ {
        ProjectionModel {
            max_id: m1.max_id,
            queued: Seq::empty(),
            played: Set::empty(),
            failed: Set::empty(),
            skips: Seq::empty(),
            metadata: Seq::empty(),
            queued_by: Seq::empty(),
            cleared: if e.id > m1.cleared {
                e.id
            } else {
                m1.cleared
            },
            now: None,
            reorder: None,
        }
    } else if e.event_type == "reordered"@ {
        match e.order {
            Some(o) => ProjectionModel { reorder: Some(o), ..m1 },
            None => m1,
        }
    } else {
        m1
    }
}

/// The fold of a whole event sequence, in log order.
pub open spec fn fold_events(s: Seq<EventView>) -> ProjectionModel
    decreases s.len(),
{
    if s.len() == 0 {
        init_model()
    } else {
        apply_event(fold_events(s.drop_last()), s.last())
    }
}

/// Exec fold state mirroring `ProjectionModel`.
pub struct FoldState {
    pub max_id: u64,
    pub queued: Vec<(u64, String)>,
    pub played: Vec<u64>,
    pub failed: Vec<u64>,
    pub skips: Vec<(u64, u64)>,
    pub metadata: Vec<(u64, String)>,
    pub queued_by: Vec<(u64, String)>,
    pub cleared: u64,
    pub now: Option<SharedNowPlayingInfo>,
    pub reorder: Option<Vec<u64>>,
}

impl View for FoldState {
    type V = ProjectionModel;

    open spec fn view(&self) -> ProjectionModel {
        ProjectionModel {
            max_id: self.max_id,
            queued: pairs_view(self.queued@),
            played: id_set(self.played@),
            failed: id_set(self.failed@),
            skips: self.skips@,
            metadata: pairs_view(self.metadata@),
            queued_by: pairs_view(self.queued_by@),
            cleared: self.cleared,
            now: match self.now {
                Some(ref n) => Some((n.title@, n.url@, n.queued_id)),
                None => None,
            },
            reorder: match self.reorder {
                Some(ref o) => Some(o@),
                None => None,
            },
        }
    }
}

impl FoldState {
    fn init() -> (r: FoldState)
        ensures
            r@ == init_model(),
    {
        let r = FoldState {
            max_id: 0,
            queued: Vec::new(),
            played: Vec::new(),
            failed: Vec::new(),
            skips: Vec::new(),
            metadata: Vec::new(),
            queued_by: Vec::new(),
            cleared: 0,
            now: None,
            reorder: None,
        };
        proof {
            assert(pairs_view(r.queued@) =~= Seq::<(u64, Seq<char>)>::empty());
            assert(pairs_view(r.metadata@) =~= Seq::<(u64, Seq<char>)>::empty());
            assert(pairs_view(r.queued_by@) =~= Seq::<(u64, Seq<char>)>::empty());
            assert(id_set(r.played@) =~= Set::<u64>::empty());
            assert(id_set(r.failed@) =~= Set::<u64>::empty());
        }
        r
    }

    /// Apply one event to the fold state.
    fn apply(&mut self, e: &QueueEvent)
        ensures
            final(self)@ == apply_event(old(self)@, e@),
    {
        if e.id > self.max_id {
            self.max_id = e.id;
        }
        if e.type_is("queued") {
            match &e.url {
                Some(url) => {
                    let ghost qpre = pairs_view(self.queued@);
                    let ghost bpre = pairs_view(self.queued_by@);
                    self.queued.push((e.id, url.clone()));
                    proof {
                        assert(pairs_view(self.queued@) =~= qpre.push((e.id, url@)));
                    }
                    match &e.by {
                        Some(b) => {
                            self.queued_by.push((e.id, b.clone()));
                            proof {
                                assert(pairs_view(self.queued_by@) =~= bpre.push((e.id, b@)));
                            }
                        },
                        None => {},
                    }
                },
                None => {},
            }
        } else if e.type_is("played") {
            match &e.ref_id {
                Some(r) => {
                    let ghost ppre = self.played@;
                    self.played.push(*r);
                    proof {
                        lemma_id_set_push(ppre, *r);
                    }
                },
                None => {},
            }
        } else if e.type_is("failed") {
            match &e.ref_id {
                Some(r) => {
                    let ghost fpre = self.failed@;
                    self.failed.push(*r);
                    proof {
                        lemma_id_set_push(fpre, *r);
                    }
                },
                None => {},
            }
        } else if e.type_is("playing") {
            match (&e.title, &e.url) {
                (Some(t), Some(u)) => {
                    self.now = Some(
                        SharedNowPlayingInfo {
                            title: t.clone(),
                            url: u.clone(),
                            queued_id: e.ref_id,
                        },
                    );
                },
                _ => {},
            }
        } else if e.type_is("skip") {
            match &e.ref_id {
                Some(r) => {
                    self.skips.push((*r, e.id));
                },
                None => {},
            }
        } else if e.type_is("metadata") {
            match (&e.ref_id, &e.title) {
                (Some(r), Some(t)) => {
                    let ghost mpre = pairs_view(self.metadata@);
                    self.metadata.push((*r, t.clone()));
                    proof {
                        assert(pairs_view(self.metadata@) =~= mpre.push((*r, t@)));
                    }
                },
                _ => {},
            }
        } else if e.type_is("cleared") {
            if e.id > self.cleared {
                self.cleared = e.id;
            }
            self.queued = Vec::new();
            self.played = Vec::new();
            self.failed = Vec::new();
            self.skips = Vec::new();
            self.metadata = Vec::new();
            self.queued_by = Vec::new();
            self.now = None;
            self.reorder = None;
            proof {
                assert(pairs_view(self.queued@) =~= Seq::<(u64, Seq<char>)>::empty());
                assert(pairs_view(self.metadata@) =~= Seq::<(u64, Seq<char>)>::empty());
                assert(pairs_view(self.queued_by@) =~= Seq::<(u64, Seq<char>)>::empty());
                assert(id_set(self.played@) =~= Set::<u64>::empty());
                assert(id_set(self.failed@) =~= Set::<u64>::empty());
            }
        } else if e.type_is("reordered") {
            match &e.order {
                Some(o) => {
                    self.reorder = Some(o.clone());
                },
                None => {},
            }
        }
    }
}

// ---------------------------------------------------------------------
// Post-processing: from the fold state to the visible data
// ---------------------------------------------------------------------
/// The queued entries that still lack a title: not voided by the clear
/// watermark and without a metadata entry, in insertion order.
pub open spec fn spec_needs_metadata(q: Seq<(u64, Seq<char>)>, m: ProjectionModel) -> Seq<
    (u64, Seq<char>),
>
    decreases q.len(),
{
    if q.len() == 0 {
        Seq::empty()
    } else {
        let rest = spec_needs_metadata(q.drop_last(), m);
        if q.last().0 > m.cleared && assoc_get(m.metadata, q.last().0) is None {
            rest.push(q.last())
        } else {
            rest
        }
    }
}

pub open spec fn hist_keep(p: (u64, Seq<char>), m: ProjectionModel) -> bool {
    p.0 > m.cleared && (m.played.contains(p.0) || m.failed.contains(p.0))
}

pub open spec fn hist_entry(p: (u64, Seq<char>), m: ProjectionModel) -> (
    Seq<char>,
    Option<Seq<char>>,
    Option<Seq<char>>,
) {
    (p.1, assoc_get(m.metadata, p.0), assoc_get(m.queued_by, p.0))
}

/// The finished entries of the id-sorted queue, most recent first.
pub open spec fn spec_history(s: Seq<(u64, Seq<char>)>, m: ProjectionModel) -> Seq<
    (Seq<char>, Option<Seq<char>>, Option<Seq<char>>),
>
    decreases s.len(),
{
    if s.len() == 0 {
        Seq::empty()
    } else {
        let rest = spec_history(s.drop_first(), m);
        if hist_keep(s[0], m) {
            rest.push(hist_entry(s[0], m))
        } else {
            rest
        }
    }
}

pub open spec fn playing_ref(m: ProjectionModel) -> Option<u64> {
    match m.now {
        Some(n) => n.2,
        None => None,
    }
}

/// A queued entry stays pending while it is past the watermark, not yet
/// finished, and not the current track.
pub open spec fn item_keep(p: (u64, Seq<char>), m: ProjectionModel) -> bool {
    p.0 > m.cleared && !m.played.contains(p.0) && !m.failed.contains(p.0) && playing_ref(m)
        != Some(p.0)
}

pub open spec fn mk_track(p: (u64, Seq<char>), m: ProjectionModel) -> TrackView {
    TrackView {
        url: p.1,
        title: match assoc_get(m.metadata, p.0) {
            Some(t) => t,
            None => "Loading..."@,
        },
        queued_id: Some(p.0),
        queued_by: assoc_get(m.queued_by, p.0),
    }
}

/// The pending tracks of the id-sorted queue, in id order.
pub open spec fn spec_pending(s: Seq<(u64, Seq<char>)>, m: ProjectionModel) -> Seq<TrackView>
    decreases s.len(),
{
    if s.len() == 0 {
        Seq::empty()
    } else {
        let rest = spec_pending(s.drop_last(), m);
        if item_keep(s.last(), m) {
            rest.push(mk_track(s.last(), m))
        } else {
            rest
        }
    }
}

/// The position of the last occurrence of `id` in the explicit ordering,
/// or `-1` when absent.
pub open spec fn last_index_of(order: Seq<u64>, id: u64) -> int
    decreases order.len(),
{
    if order.len() == 0 {
        -1
    } else if order.last() == id {
        order.len() - 1
    } else {
        last_index_of(order.drop_last(), id)
    }
}

/// The sort rank of a track under an explicit ordering; unknown ids sort
/// last.
pub open spec fn spec_rank(order: Seq<u64>, tid: Option<u64>) -> u64 {
    match tid {
        None => u64::MAX,
        Some(id) => {
            let idx = last_index_of(order, id);
            if idx < 0 {
                u64::MAX
            } else {
                idx as u64
            }
        },
    }
}

pub open spec fn rank_pairs(order: Seq<u64>, items: Seq<TrackView>) -> Seq<(u64, TrackView)> {
    Seq::new(items.len(), |i: int| (spec_rank(order, items[i].queued_id), items[i]))
}

pub open spec fn strip_ranks(s: Seq<(u64, TrackView)>) -> Seq<TrackView> {
    s.map(|i: int, p: (u64, TrackView)| p.1)
}

/// The pending queue as shown: id order, then the latest explicit
/// reordering when one is present.
pub open spec fn spec_items(m: ProjectionModel) -> Seq<TrackView> {
    let base = spec_pending(spec_sort_pairs(m.queued), m);
    match m.reorder {
        Some(o) => strip_ranks(spec_sort_pairs(rank_pairs(o, base))),
        None => base,
    }
}

/// The current track, cleared once its id shows up as played or failed.
pub open spec fn spec_final_now(m: ProjectionModel) -> Option<NowView> {
    match m.now {
        Some(n) => match n.2 {
            Some(r) => if m.played.contains(r) || m.failed.contains(r) {
                None
            } else {
                Some(NowView { title: n.0, url: n.1, queued_id: n.2 })
            },
            None => Some(NowView { title: n.0, url: n.1, queued_id: n.2 }),
        },
        None => None,
    }
}

/// The whole projection of an event sequence.
pub open spec fn spec_project(s: Seq<EventView>) -> DataView {
    let m = fold_events(s);
    let sortedq = spec_sort_pairs(m.queued);
    DataView {
        items: spec_items(m),
        now_playing: spec_final_now(m),
        max_id: m.max_id,
        skip_events: m.skips,
        needs_metadata: spec_needs_metadata(m.queued, m),
        history: spec_history(sortedq, m),
    }
}

// ---------------------------------------------------------------------
// Sorting commutes with taking views
// ---------------------------------------------------------------------
/// Key-value pairs, values taken to their views.
pub open spec fn kv_view<V: View>(s: Seq<(u64, V)>) -> Seq<(u64, <V as View>::V)> {
    s.map(|i: int, p: (u64, V)| (p.0, p.1@))
}

pub open spec fn rpairs_view(s: Seq<(u64, QueuedTrack)>) -> Seq<(u64, TrackView)> {
    s.map(|i: int, p: (u64, QueuedTrack)| (p.0, p.1@))
}

proof fn lemma_kv_insert_commute<V: View>(s: Seq<(u64, V)>, x: (u64, V))
    ensures
        kv_view(spec_sorted_insert(s, x)) == spec_sorted_insert(kv_view(s), (x.0, x.1@)),
    decreases s.len(),
{
    let sv = kv_view(s);
    if s.len() == 0 {
        assert(kv_view(spec_sorted_insert(s, x)) =~= spec_sorted_insert(sv, (x.0, x.1@)));
    } else if x.0 < s[0].0 {
        assert(kv_view(seq![x] + s) =~= seq![(x.0, x.1@)] + sv);
    } else {
        lemma_kv_insert_commute(s.drop_first(), x);
        assert(kv_view(s.drop_first()) =~= sv.drop_first());
        assert(kv_view(seq![s[0]] + spec_sorted_insert(s.drop_first(), x)) =~= seq![sv[0]]
            + kv_view(spec_sorted_insert(s.drop_first(), x)));
        assert(spec_sorted_insert(sv, (x.0, x.1@)) == seq![sv[0]] + spec_sorted_insert(
            sv.drop_first(),
            (x.0, x.1@),
        ));
    }
}

pub(crate) proof fn lemma_kv_sort_commute<V: View>(s: Seq<(u64, V)>)
    ensures
        kv_view(spec_sort_pairs(s)) == spec_sort_pairs(kv_view(s)),
    decreases s.len(),
{
    let sv = kv_view(s);
    if s.len() == 0 {
        assert(kv_view(spec_sort_pairs(s)) =~= spec_sort_pairs(sv));
    } else {
        lemma_kv_sort_commute(s.drop_last());
        lemma_kv_insert_commute(spec_sort_pairs(s.drop_last()), s.last());
        assert(kv_view(s.drop_last()) =~= sv.drop_last());
        assert(sv.last() == (s.last().0, s.last().1@));
    }
}

/// The exec rank of a track id under an explicit ordering.
fn rank_of(order: &Vec<u64>, tid: Option<u64>) -> (r: u64)
    ensures
        r == spec_rank(order@, tid),
{
    let id = match tid {
        Some(id) => id,
        None => {
            return u64::MAX;
        },
    };
    let mut j: usize = order.len();
    proof {
        assert(order@.subrange(0, order@.len() as int) =~= order@);
    }
    while j > 0
        invariant
            j <= order@.len(),
            tid == Some(id),
            last_index_of(order@, id) == last_index_of(order@.subrange(0, j as int), id),
        decreases j,
    {
        proof {
            assert(order@.subrange(0, j as int).last() == order@[j - 1]);
            assert(order@.subrange(0, j as int).drop_last() =~= order@.subrange(0, j - 1));
        }
        if order[j - 1] == id {
            return (j - 1) as u64;
        }
        j = j - 1;
    }
    proof {
        assert(order@.subrange(0, 0) =~= Seq::<u64>::empty());
    }
    u64::MAX
}


/// Fold the events into the externally visible queue state.
pub fn shared_queue_data_from_events(events: &Vec<QueueEvent>) -> (r: SharedQueueData)
    ensures
        r@ == spec_project(events_view(events@)),
{
    let ghost evs = events_view(events@);
    let mut st = FoldState::init();
    let mut i: usize = 0;
    proof {
        assert(evs.subrange(0, 0) =~= Seq::<EventView>::empty());
    }
    while i < events.len()
        invariant
            i <= events@.len(),
            evs == events_view(events@),
            st@ == fold_events(evs.subrange(0, i as int)),
        decreases events@.len() - i,
    {
        proof {
            assert(evs.subrange(0, i as int + 1).drop_last() =~= evs.subrange(0, i as int));
            assert(evs.subrange(0, i as int + 1).last() == events@[i as int]@);
        }
        st.apply(&events[i]);
        i = i + 1;
    }
    proof {
        assert(evs.subrange(0, evs.len() as int) =~= evs);
    }
    let ghost m = st@;
    let FoldState {
        max_id,
        queued,
        played,
        failed,
        skips,
        metadata,
        queued_by,
        cleared,
        now,
        reorder,
    } = st;
    // Entries still waiting for a title, in insertion order.
    let ghost qv = pairs_view(queued@);
    let mut needs_metadata: Vec<(u64, String)> = Vec::new();
    let mut i: usize = 0;
    proof {
        assert(qv.subrange(0, 0) =~= Seq::<(u64, Seq<char>)>::empty());
        assert(pairs_view(needs_metadata@) =~= Seq::<(u64, Seq<char>)>::empty());
    }
    while i < queued.len()
        invariant
            i <= queued@.len(),
            qv == pairs_view(queued@),
            m.metadata == pairs_view(metadata@),
            m.cleared == cleared,
            pairs_view(needs_metadata@) == spec_needs_metadata(qv.subrange(0, i as int), m),
        decreases queued@.len() - i,
    {
        proof {
            assert(qv.subrange(0, i as int + 1).drop_last() =~= qv.subrange(0, i as int));
            assert(qv.subrange(0, i as int + 1).last() == qv[i as int]);
        }
        let id = queued[i].0;
        if id > cleared {
            let known = match assoc_lookup_string(&metadata, id) {
                Some(_) => true,
                None => false,
            };
            if !known {
                let ghost pre = pairs_view(needs_metadata@);
                needs_metadata.push((id, queued[i].1.clone()));
                proof {
                    assert(pairs_view(needs_metadata@) =~= pre.push(qv[i as int]));
                }
            }
        }
        i = i + 1;
    }
    proof {
        assert(qv.subrange(0, qv.len() as int) =~= qv);
    }
    // Sort the queued entries by id.
    let ghost qseq = queued@;
    let sorted = sort_pairs(queued);
    let ghost sv = pairs_view(sorted@);
    proof {
        lemma_kv_sort_commute::<String>(qseq);
        assert(kv_view(qseq) =~= qv);
        assert(kv_view(sorted@) =~= sv);
        assert(m.queued == qv);
        assert(sv == spec_sort_pairs(m.queued));
    }
    // History: finished entries of the sorted queue, most recent first.
    let mut history: Vec<(String, Option<String>, Option<String>)> = Vec::new();
    let mut j: usize = sorted.len();
    proof {
        assert(sv.subrange(sv.len() as int, sv.len() as int) =~= Seq::<(u64, Seq<char>)>::empty());
        assert(history_view(history@) =~= Seq::<
            (Seq<char>, Option<Seq<char>>, Option<Seq<char>>),
        >::empty());
    }
    while j > 0
        invariant
            j <= sorted@.len(),
            sv == pairs_view(sorted@),
            m.metadata == pairs_view(metadata@),
            m.queued_by == pairs_view(queued_by@),
            m.played == id_set(played@),
            m.failed == id_set(failed@),
            m.cleared == cleared,
            history_view(history@) == spec_history(sv.subrange(j as int, sv.len() as int), m),
        decreases j,
    {
        proof {
            assert(sv.subrange(j - 1, sv.len() as int).drop_first() =~= sv.subrange(
                j as int,
                sv.len() as int,
            ));
            assert(sv.subrange(j - 1, sv.len() as int)[0] == sv[j - 1]);
        }
        let id = sorted[j - 1].0;
        if id > cleared && (ids_contain(&played, id) || ids_contain(&failed, id)) {
            let ghost pre = history_view(history@);
            let title = assoc_lookup_string(&metadata, id);
            let by = assoc_lookup_string(&queued_by, id);
            history.push((sorted[j - 1].1.clone(), title, by));
            proof {
                assert(history_view(history@) =~= pre.push(hist_entry(sv[j - 1], m)));
            }
        }
        j = j - 1;
    }
    proof {
        assert(sv.subrange(0, sv.len() as int) =~= sv);
    }
    // Pending items of the sorted queue.
    let playing_id: Option<u64> = match &now {
        Some(n) => n.queued_id,
        None => None,
    };
    let mut base: Vec<QueuedTrack> = Vec::new();
    let mut i: usize = 0;
    proof {
        assert(sv.subrange(0, 0) =~= Seq::<(u64, Seq<char>)>::empty());
        assert(tracks_view(base@) =~= Seq::<TrackView>::empty());
    }
    while i < sorted.len()
        invariant
            i <= sorted@.len(),
            sv == pairs_view(sorted@),
            m.metadata == pairs_view(metadata@),
            m.queued_by == pairs_view(queued_by@),
            m.played == id_set(played@),
            m.failed == id_set(failed@),
            m.cleared == cleared,
            playing_id == playing_ref(m),
            tracks_view(base@) == spec_pending(sv.subrange(0, i as int), m),
        decreases sorted@.len() - i,
    {
        proof {
            assert(sv.subrange(0, i as int + 1).drop_last() =~= sv.subrange(0, i as int));
            assert(sv.subrange(0, i as int + 1).last() == sv[i as int]);
        }
        let id = sorted[i].0;
        let is_playing = match playing_id {
            Some(p) => p == id,
            None => false,
        };
        if id > cleared && !ids_contain(&played, id) && !ids_contain(&failed, id) && !is_playing {
            let ghost pre = tracks_view(base@);
            let title = match assoc_lookup_string(&metadata, id) {
                Some(t) => t,
                None => String::from_str("Loading..."),
            };
            let by = assoc_lookup_string(&queued_by, id);
            let track = QueuedTrack {
                url: sorted[i].1.clone(),
                title,
                queued_id: Some(id),
                queued_by: by,
            };
            proof {
                assert(track@ == mk_track(sv[i as int], m));
            }
            base.push(track);
            proof {
                assert(tracks_view(base@) =~= pre.push(mk_track(sv[i as int], m)));
            }
        }
        i = i + 1;
    }
    proof {
        assert(sv.subrange(0, sv.len() as int) =~= sv);
    }
    // Apply the latest explicit reordering, when present.
    let ghost basev = tracks_view(base@);
    let items: Vec<QueuedTrack> = match &reorder {
        None => base,
        Some(order) => {
            let ghost ov = order@;
            let ghost baseq = base@;
            let mut ranked: Vec<(u64, QueuedTrack)> = Vec::new();
            let mut src = base;
            proof {
                assert(rpairs_view(ranked@) =~= rank_pairs(ov, basev).subrange(0, 0));
                assert(src@ =~= baseq.subrange(0, baseq.len() as int));
            }
            while src.len() > 0
                invariant
                    src@.len() <= baseq.len(),
                    ov == order@,
                    basev == tracks_view(baseq),
                    src@ == baseq.subrange(baseq.len() - src@.len(), baseq.len() as int),
                    rpairs_view(ranked@) == rank_pairs(ov, basev).subrange(
                        0,
                        baseq.len() - src@.len(),
                    ),
                decreases src@.len(),
            {
                let ghost k = baseq.len() - src@.len();
                let t = src.remove(0);
                proof {
                    assert(t == baseq[k as int]);
                    assert(tracks_view(baseq)[k as int] == baseq[k as int]@);
                    assert(src@ =~= baseq.subrange(k as int + 1, baseq.len() as int));
                }
                let rk = rank_of(order, t.queued_id);
                let ghost rpre_seq = ranked@;
                ranked.push((rk, t));
                proof {
                    assert(ranked@ == rpre_seq.push((rk, t)));
                    assert(rpairs_view(rpre_seq).len() == k);
                    assert(rpre_seq.len() == k);
                    assert(ranked@.len() == k + 1);
                    assert(rank_pairs(ov, basev)[k as int] == (
                        spec_rank(ov, basev[k as int].queued_id),
                        basev[k as int],
                    ));
                    assert forall|jj: int| 0 <= jj < k + 1 implies rpairs_view(ranked@)[jj]
                        == rank_pairs(ov, basev)[jj] by {
                        assert(rpairs_view(ranked@)[jj] == (ranked@[jj].0, ranked@[jj].1@));
                        if jj < k {
                            assert(ranked@[jj] == rpre_seq[jj]);
                            assert(rpairs_view(rpre_seq)[jj] == (rpre_seq[jj].0, rpre_seq[jj].1@));
                            assert(rpairs_view(rpre_seq)[jj] == rank_pairs(ov, basev).subrange(
                                0,
                                k as int,
                            )[jj]);
                        } else {
                            assert(ranked@[jj] == (rk, t));
                        }
                    }
                    assert(rpairs_view(ranked@) =~= rank_pairs(ov, basev).subrange(
                        0,
                        k as int + 1,
                    ));
                }
            }
            proof {
                assert(rank_pairs(ov, basev).subrange(0, rank_pairs(ov, basev).len() as int)
                    =~= rank_pairs(ov, basev));
            }
            let ghost rseq = ranked@;
            let sorted_ranked = sort_pairs(ranked);
            let ghost rv = rpairs_view(sorted_ranked@);
            proof {
                lemma_kv_sort_commute::<QueuedTrack>(rseq);
                assert(kv_view(rseq) =~= rpairs_view(rseq));
                assert(kv_view(sorted_ranked@) =~= rv);
                assert(rpairs_view(rseq) == rank_pairs(ov, basev));
                assert(rv == spec_sort_pairs(rank_pairs(ov, basev)));
            }
            let ghost srseq = sorted_ranked@;
            let mut stripped: Vec<QueuedTrack> = Vec::new();
            let mut src2 = sorted_ranked;
            proof {
                assert(tracks_view(stripped@) =~= strip_ranks(rv).subrange(0, 0));
                assert(src2@ =~= srseq.subrange(0, srseq.len() as int));
            }
            while src2.len() > 0
                invariant
                    src2@.len() <= srseq.len(),
                    rv == rpairs_view(srseq),
                    src2@ == srseq.subrange(srseq.len() - src2@.len(), srseq.len() as int),
                    tracks_view(stripped@) == strip_ranks(rv).subrange(
                        0,
                        srseq.len() - src2@.len(),
                    ),
                decreases src2@.len(),
            {
                let ghost k = srseq.len() - src2@.len();
                let p = src2.remove(0);
                proof {
                    assert(p == srseq[k as int]);
                    assert(rpairs_view(srseq)[k as int] == (srseq[k as int].0, srseq[k as int].1@));
                    assert(src2@ =~= srseq.subrange(k as int + 1, srseq.len() as int));
                }
                let ghost spre = stripped@;
                stripped.push(p.1);
                proof {
                    assert(stripped@ == spre.push(srseq[k as int].1));
                    assert(tracks_view(spre).len() == k);
                    assert(spre.len() == k);
                    assert(stripped@.len() == k + 1);
                    assert(strip_ranks(rv)[k as int] == rv[k as int].1);
                    assert forall|jj: int| 0 <= jj < k + 1 implies tracks_view(stripped@)[jj]
                        == strip_ranks(rv)[jj] by {
                        assert(tracks_view(stripped@)[jj] == stripped@[jj]@);
                        if jj < k {
                            assert(stripped@[jj] == spre[jj]);
                            assert(tracks_view(spre)[jj] == spre[jj]@);
                            assert(tracks_view(spre)[jj] == strip_ranks(rv).subrange(
                                0,
                                k as int,
                            )[jj]);
                        } else {
                            assert(stripped@[jj] == srseq[k as int].1);
                        }
                    }
                    assert(tracks_view(stripped@) =~= strip_ranks(rv).subrange(0, k as int + 1));
                }
            }
            proof {
                assert(strip_ranks(rv).subrange(0, strip_ranks(rv).len() as int) =~= strip_ranks(
                    rv,
                ));
            }
            stripped
        },
    };
    // The current track, cleared once finished.
    let now_playing: Option<SharedNowPlayingInfo> = match now {
        Some(n) => {
            let dead = match n.queued_id {
                Some(r0) => ids_contain(&played, r0) || ids_contain(&failed, r0),
                None => false,
            };
            if dead {
                None
            } else {
                Some(n)
            }
        },
        None => None,
    };
    let r = SharedQueueData {
        items,
        now_playing,
        max_id,
        skip_events: skips,
        needs_metadata,
        history,
    };
    proof {
        let sp = spec_project(evs);
        assert(r@.items == sp.items);
        assert(r@.now_playing == sp.now_playing);
        assert(r@.max_id == sp.max_id);
        assert(r@.skip_events == sp.skip_events);
        assert(r@.needs_metadata == sp.needs_metadata);
        assert(r@.history == sp.history);
        assert(r@ =~= sp);
    }
    r
}

// ---------------------------------------------------------------------
// Snapshot and skip check
// ---------------------------------------------------------------------
/// How a pending track appears in the snapshot: a placeholder title reads
/// as "no title yet", and a purely local track shows id zero.
pub open spec fn snap_item(t: TrackView) -> crate::audio::ItemView {
    crate::audio::ItemView {
        url: t.url,
        title: if t.title == "Loading..."@ {
            None
        } else {
            Some(t.title)
        },
        id: match t.queued_id {
            Some(id) => id,
            None => 0u64,
        },
        queued_by: t.queued_by,
    }
}

pub open spec fn snap_items(items: Seq<TrackView>) -> Seq<crate::audio::ItemView> {
    items.map(|i: int, t: TrackView| snap_item(t))
}

pub open spec fn snap_history(h: Seq<(Seq<char>, Option<Seq<char>>, Option<Seq<char>>)>) -> Seq<
    crate::audio::HistView,
> {
    h.map(
        |i: int, e: (Seq<char>, Option<Seq<char>>, Option<Seq<char>>)|
            crate::audio::HistView { url: e.0, title: e.1, queued_by: e.2 },
    )
}

/// The externally visible snapshot of the projected data.
pub open spec fn spec_snapshot(d: DataView) -> crate::audio::SnapshotView {
    crate::audio::SnapshotView {
        queue: snap_items(d.items),
        now_playing: match d.now_playing {
            Some(n) => Some(crate::audio::SharedNowView { title: n.title, url: n.url }),
            None => None,
        },
        history: snap_history(d.history),
    }
}

/// Turn projected data into the snapshot shown to observers.
pub fn shared_queue_snapshot_from_data(data: SharedQueueData) -> (r:
    crate::audio::SharedQueueSnapshot)
    ensures
        r@ == spec_snapshot(data@),
{
    let ghost dv = data@;
    let SharedQueueData { items, now_playing, max_id: _, skip_events: _, needs_metadata: _, history } =
        data;
    let ghost itemsq = items@;
    let mut queue: Vec<crate::audio::SharedQueueItem> = Vec::new();
    let mut src = items;
    proof {
        assert(src@ =~= itemsq.subrange(0, itemsq.len() as int));
        assert(dv.items =~= tracks_view(itemsq));
    }
    while src.len() > 0
        invariant
            src@.len() <= itemsq.len(),
            dv.items == tracks_view(itemsq),
            src@ == itemsq.subrange(itemsq.len() - src@.len(), itemsq.len() as int),
            crate::audio::snap_queue_view(queue@) == snap_items(dv.items).subrange(
                0,
                itemsq.len() - src@.len(),
            ),
        decreases src@.len(),
    {
        let ghost k = itemsq.len() - src@.len();
        let t = src.remove(0);
        proof {
            assert(t == itemsq[k as int]);
            assert(tracks_view(itemsq)[k as int] == itemsq[k as int]@);
            assert(src@ =~= itemsq.subrange(k as int + 1, itemsq.len() as int));
        }
        let placeholder = t.title.eq(&String::from_str("Loading..."));
        let item = crate::audio::SharedQueueItem {
            url: t.url,
            title: if placeholder {
                None
            } else {
                Some(t.title)
            },
            id: match t.queued_id {
                Some(id) => id,
                None => 0,
            },
            queued_by: t.queued_by,
        };
        proof {
            assert(item@ == snap_item(dv.items[k as int]));
        }
        let ghost qpre = queue@;
        queue.push(item);
        proof {
            assert(queue@ == qpre.push(item));
            assert(crate::audio::snap_queue_view(qpre).len() == k);
            assert(qpre.len() == k);
            assert forall|jj: int|
                0 <= jj < k + 1 implies crate::audio::snap_queue_view(queue@)[jj] == snap_items(
                dv.items,
            )[jj] by {
                assert(crate::audio::snap_queue_view(queue@)[jj] == queue@[jj]@);
                if jj < k {
                    assert(queue@[jj] == qpre[jj]);
                    assert(crate::audio::snap_queue_view(qpre)[jj] == qpre[jj]@);
                    assert(crate::audio::snap_queue_view(qpre)[jj] == snap_items(
                        dv.items,
                    ).subrange(0, k as int)[jj]);
                } else {
                    assert(queue@[jj] == item);
                    assert(snap_items(dv.items)[jj] == snap_item(dv.items[jj]));
                }
            }
            assert(crate::audio::snap_queue_view(queue@) =~= snap_items(dv.items).subrange(
                0,
                k as int + 1,
            ));
        }
    }
    let now = match now_playing {
        Some(n) => Some(crate::audio::SharedNowPlaying { title: n.title, url: n.url }),
        None => None,
    };
    let ghost histq = history@;
    let mut hist: Vec<crate::audio::SharedHistoryItem> = Vec::new();
    let mut src2 = history;
    proof {
        assert(src2@ =~= histq.subrange(0, histq.len() as int));
        assert(dv.history =~= history_view(histq));
    }
    while src2.len() > 0
        invariant
            src2@.len() <= histq.len(),
            dv.history == history_view(histq),
            src2@ == histq.subrange(histq.len() - src2@.len(), histq.len() as int),
            crate::audio::snap_hist_view(hist@) == snap_history(dv.history).subrange(
                0,
                histq.len() - src2@.len(),
            ),
        decreases src2@.len(),
    {
        let ghost k = histq.len() - src2@.len();
        let h = src2.remove(0);
        proof {
            assert(h == histq[k as int]);
            assert(history_view(histq)[k as int] == (
                histq[k as int].0@,
                crate::events::opt_string_view(&histq[k as int].1),
                crate::events::opt_string_view(&histq[k as int].2),
            ));
            assert(src2@ =~= histq.subrange(k as int + 1, histq.len() as int));
        }
        let entry = crate::audio::SharedHistoryItem { url: h.0, title: h.1, queued_by: h.2 };
        proof {
            assert(entry@ == (crate::audio::HistView {
                url: dv.history[k as int].0,
                title: dv.history[k as int].1,
                queued_by: dv.history[k as int].2,
            }));
        }
        let ghost hpre = hist@;
        hist.push(entry);
        proof {
            assert(hist@ == hpre.push(entry));
            assert(crate::audio::snap_hist_view(hpre).len() == k);
            assert(hpre.len() == k);
            assert forall|jj: int|
                0 <= jj < k + 1 implies crate::audio::snap_hist_view(hist@)[jj] == snap_history(
                dv.history,
            )[jj] by {
                assert(crate::audio::snap_hist_view(hist@)[jj] == hist@[jj]@);
                if jj < k {
                    assert(hist@[jj] == hpre[jj]);
                    assert(crate::audio::snap_hist_view(hpre)[jj] == hpre[jj]@);
                    assert(crate::audio::snap_hist_view(hpre)[jj] == snap_history(
                        dv.history,
                    ).subrange(0, k as int)[jj]);
                } else {
                    assert(hist@[jj] == entry);
                    assert(snap_history(dv.history)[jj] == (crate::audio::HistView {
                        url: dv.history[jj].0,
                        title: dv.history[jj].1,
                        queued_by: dv.history[jj].2,
                    }));
                }
            }
            assert(crate::audio::snap_hist_view(hist@) =~= snap_history(dv.history).subrange(
                0,
                k as int + 1,
            ));
        }
    }
    let r = crate::audio::SharedQueueSnapshot { queue, now_playing: now, history: hist };
    proof {
        assert(r@.queue =~= spec_snapshot(dv).queue);
        assert(r@.history =~= spec_snapshot(dv).history);
        assert(r@ =~= spec_snapshot(dv));
    }
    r
}

/// Whether a fresh skip has been requested for the given track: a skip
/// event for `queued_id` whose own id lies strictly past `since_id`.
/// A skip recorded at or before the watermark is stale and ignored.
pub fn shared_skip_requested(data: &SharedQueueData, queued_id: u64, since_id: u64) -> (r: bool)
    ensures
        r == match assoc_get(data@.skip_events, queued_id) {
            Some(ev) => ev > since_id,
            None => false,
        },
{
    match assoc_lookup_u64(&data.skip_events, queued_id) {
        Some(ev) => ev > since_id,
        None => false,
    }
}

// ---------------------------------------------------------------------
// Laws of the projection
// ---------------------------------------------------------------------
/// Projection determinism: the projection is a pure function of the event
/// sequence, so folding equal logs always yields identical derived state.
pub proof fn lemma_projection_deterministic(s1: Seq<EventView>, s2: Seq<EventView>)
    requires
        s1 == s2,
    ensures
        spec_project(s1) == spec_project(s2),
{
}

proof fn lemma_singleton_contains<V>(x: V, y: V)
    ensures
        seq![x].contains(y) <==> y == x,
{
    assert(seq![x][0] == x);
    if seq![x].contains(y) {
        let i = choose|i: int| 0 <= i < seq![x].len() && seq![x][i] == y;
        assert(i == 0);
    }
}

proof fn lemma_sorted_insert_contains<V>(s: Seq<(u64, V)>, x: (u64, V), y: (u64, V))
    ensures
        spec_sorted_insert(s, x).contains(y) <==> (s.contains(y) || y == x),
    decreases s.len(),
{
    if s.len() == 0 {
        assert(spec_sorted_insert(s, x) =~= seq![x]);
        lemma_singleton_contains(x, y);
    } else if x.0 < s[0].0 {
        assert(spec_sorted_insert(s, x) =~= seq![x] + s);
        lemma_concat_contains(seq![x], s, y);
        lemma_singleton_contains(x, y);
    } else {
        lemma_sorted_insert_contains(s.drop_first(), x, y);
        lemma_concat_contains(seq![s[0]], spec_sorted_insert(s.drop_first(), x), y);
        lemma_singleton_contains(s[0], y);
        assert(s.contains(y) <==> (y == s[0] || s.drop_first().contains(y))) by {
            if s.contains(y) {
                let i = choose|i: int| 0 <= i < s.len() && s[i] == y;
                if i > 0 {
                    assert(s.drop_first()[i - 1] == y);
                }
            }
            if s.drop_first().contains(y) {
                let i = choose|i: int| 0 <= i < s.drop_first().len() && s.drop_first()[i] == y;
                assert(s[i + 1] == y);
            }
        }
    }
}

proof fn lemma_concat_contains<V>(a: Seq<V>, b: Seq<V>, y: V)
    ensures
        (a + b).contains(y) <==> (a.contains(y) || b.contains(y)),
{
    if (a + b).contains(y) {
        let i = choose|i: int| 0 <= i < (a + b).len() && (a + b)[i] == y;
        if i < a.len() {
            assert(a[i] == y);
        } else {
            assert(b[i - a.len()] == y);
        }
    }
    if a.contains(y) {
        let i = choose|i: int| 0 <= i < a.len() && a[i] == y;
        assert((a + b)[i] == y);
    }
    if b.contains(y) {
        let i = choose|i: int| 0 <= i < b.len() && b[i] == y;
        assert((a + b)[a.len() + i] == y);
    }
}

proof fn lemma_sort_pairs_contains<V>(s: Seq<(u64, V)>, y: (u64, V))
    ensures
        spec_sort_pairs(s).contains(y) <==> s.contains(y),
    decreases s.len(),
{
    if s.len() > 0 {
        lemma_sort_pairs_contains(s.drop_last(), y);
        lemma_sorted_insert_contains(spec_sort_pairs(s.drop_last()), s.last(), y);
        assert(s.contains(y) <==> (s.drop_last().contains(y) || y == s.last())) by {
            if s.contains(y) {
                let i = choose|i: int| 0 <= i < s.len() && s[i] == y;
                if i < s.len() - 1 {
                    assert(s.drop_last()[i] == y);
                }
            }
            if s.drop_last().contains(y) {
                let i = choose|i: int| 0 <= i < s.drop_last().len() && s.drop_last()[i] == y;
                assert(s[i] == y);
            }
        }
    }
}

proof fn lemma_pending_prop(s: Seq<(u64, Seq<char>)>, m: ProjectionModel, i: int)
    requires
        0 <= i < spec_pending(s, m).len(),
    ensures
        spec_pending(s, m)[i].queued_id is Some,
        spec_pending(s, m)[i].queued_id->0 > m.cleared,
        !m.played.contains(spec_pending(s, m)[i].queued_id->0),
        !m.failed.contains(spec_pending(s, m)[i].queued_id->0),
    decreases s.len(),
{
    if s.len() > 0 {
        let rest = spec_pending(s.drop_last(), m);
        if item_keep(s.last(), m) {
            if i < rest.len() {
                lemma_pending_prop(s.drop_last(), m, i);
            }
        } else {
            lemma_pending_prop(s.drop_last(), m, i);
        }
    }
}

/// Clear is a watermark: every pending item's id lies strictly past the
/// clear watermark, and no played or failed id ever resurfaces in the
/// pending queue — whatever later events may reference it.
pub proof fn lemma_clear_watermark(s: Seq<EventView>, i: int)
    requires
        0 <= i < spec_project(s).items.len(),
    ensures
        spec_project(s).items[i].queued_id is Some,
        spec_project(s).items[i].queued_id->0 > fold_events(s).cleared,
        !fold_events(s).played.contains(spec_project(s).items[i].queued_id->0),
        !fold_events(s).failed.contains(spec_project(s).items[i].queued_id->0),
{
    let m = fold_events(s);
    let base = spec_pending(spec_sort_pairs(m.queued), m);
    match m.reorder {
        None => {
            lemma_pending_prop(spec_sort_pairs(m.queued), m, i);
        },
        Some(o) => {
            let rp = rank_pairs(o, base);
            let sorted = spec_sort_pairs(rp);
            let t = spec_project(s).items[i];
            assert(t == sorted[i].1);
            assert(sorted.contains(sorted[i]));
            lemma_sort_pairs_contains(rp, sorted[i]);
            let j = choose|j: int| 0 <= j < rp.len() && rp[j] == sorted[i];
            assert(rp[j].1 == base[j]);
            lemma_pending_prop(spec_sort_pairs(m.queued), m, j);
        },
    }
}

/// Keys are in nondecreasing order.
pub open spec fn sorted_by_key<V>(s: Seq<(u64, V)>) -> bool {
    forall|i: int, j: int| 0 <= i < j < s.len() ==> (#[trigger] s[i]).0 <= (#[trigger] s[j]).0
}

proof fn lemma_sorted_insert_sorted<V>(s: Seq<(u64, V)>, x: (u64, V))
    requires
        sorted_by_key(s),
    ensures
        sorted_by_key(spec_sorted_insert(s, x)),
    decreases s.len(),
{
    if s.len() == 0 {
    } else if x.0 < s[0].0 {
        let r = seq![x] + s;
        assert forall|i: int, j: int| 0 <= i < j < r.len() implies (#[trigger] r[i]).0
            <= (#[trigger] r[j]).0 by {
            if i == 0 {
                assert(r[j] == s[j - 1]);
                if j > 1 {
                    assert(s[0].0 <= s[j - 1].0);
                }
            } else {
                assert(r[i] == s[i - 1]);
                assert(r[j] == s[j - 1]);
            }
        }
    } else {
        let t = s.drop_first();
        assert(sorted_by_key(t)) by {
            assert forall|i: int, j: int| 0 <= i < j < t.len() implies (#[trigger] t[i]).0
                <= (#[trigger] t[j]).0 by {
                assert(t[i] == s[i + 1]);
                assert(t[j] == s[j + 1]);
            }
        }
        lemma_sorted_insert_sorted(t, x);
        let rec = spec_sorted_insert(t, x);
        lemma_sorted_insert_first_key(t, x, s[0].0);
        let r = seq![s[0]] + rec;
        assert forall|i: int, j: int| 0 <= i < j < r.len() implies (#[trigger] r[i]).0
            <= (#[trigger] r[j]).0 by {
            if i == 0 {
                assert(r[j] == rec[j - 1]);
            } else {
                assert(r[i] == rec[i - 1]);
                assert(r[j] == rec[j - 1]);
            }
        }
    }
}

/// Every key of an insertion into a sequence whose keys are at least `b`,
/// inserting a key at least `b`, is at least `b`.
proof fn lemma_sorted_insert_first_key<V>(s: Seq<(u64, V)>, x: (u64, V), b: u64)
    requires
        forall|i: int| 0 <= i < s.len() ==> b <= (#[trigger] s[i]).0,
        b <= x.0,
    ensures
        forall|i: int|
            0 <= i < spec_sorted_insert(s, x).len() ==> b <= (#[trigger] spec_sorted_insert(
                s,
                x,
            )[i]).0,
    decreases s.len(),
{
    if s.len() == 0 {
        assert(spec_sorted_insert(s, x) =~= seq![x]);
    } else if x.0 < s[0].0 {
        let r = seq![x] + s;
        assert forall|i: int| 0 <= i < r.len() implies b <= (#[trigger] r[i]).0 by {
            if i > 0 {
                assert(r[i] == s[i - 1]);
            }
        }
    } else {
        let t = s.drop_first();
        assert(forall|i: int| 0 <= i < t.len() ==> b <= (#[trigger] t[i]).0) by {
            assert(forall|i: int| 0 <= i < t.len() ==> t[i] == s[i + 1]);
        }
        lemma_sorted_insert_first_key(t, x, b);
        let rec = spec_sorted_insert(t, x);
        let r = seq![s[0]] + rec;
        assert forall|i: int| 0 <= i < r.len() implies b <= (#[trigger] r[i]).0 by {
            if i > 0 {
                assert(r[i] == rec[i - 1]);
            }
        }
    }
}

/// The stable key sort really sorts: its result's keys never decrease.
pub proof fn lemma_sort_pairs_sorted<V>(s: Seq<(u64, V)>)
    ensures
        sorted_by_key(spec_sort_pairs(s)),
    decreases s.len(),
{
    if s.len() > 0 {
        lemma_sort_pairs_sorted(s.drop_last());
        lemma_sorted_insert_sorted(spec_sort_pairs(s.drop_last()), s.last());
    }
}

/// Without an explicit reordering, the pending queue comes out in id
/// order: earlier items were queued under smaller or equal ids.
pub proof fn lemma_pending_in_id_order(s: Seq<EventView>, i: int, j: int)
    requires
        fold_events(s).reorder is None,
        0 <= i < j < spec_project(s).items.len(),
    ensures
        spec_project(s).items[i].queued_id is Some,
        spec_project(s).items[j].queued_id is Some,
        spec_project(s).items[i].queued_id->0 <= spec_project(s).items[j].queued_id->0,
{
    let m = fold_events(s);
    let sorted = spec_sort_pairs(m.queued);
    lemma_sort_pairs_sorted(m.queued);
    lemma_pending_prop(sorted, m, i);
    lemma_pending_prop(sorted, m, j);
    lemma_pending_keys_ordered(sorted, m, i, j);
}

/// Filtering a key-sorted sequence keeps the ids nondecreasing.
proof fn lemma_pending_keys_ordered(s: Seq<(u64, Seq<char>)>, m: ProjectionModel, i: int, j: int)
    requires
        sorted_by_key(s),
        0 <= i < j < spec_pending(s, m).len(),
    ensures
        spec_pending(s, m)[i].queued_id->0 <= spec_pending(s, m)[j].queued_id->0,
    decreases s.len(),
{
    if s.len() > 0 {
        let rest = spec_pending(s.drop_last(), m);
        assert(sorted_by_key(s.drop_last())) by {
            assert(forall|a: int| 0 <= a < s.len() - 1 ==> s.drop_last()[a] == s[a]);
        }
        if item_keep(s.last(), m) {
            if j < rest.len() {
                lemma_pending_keys_ordered(s.drop_last(), m, i, j);
            } else {
                assert(spec_pending(s, m)[j] == mk_track(s.last(), m));
                assert(forall|a: int|
                    0 <= a < s.len() - 1 ==> (#[trigger] s.drop_last()[a]).0 <= s.last().0);
                lemma_pending_key_le(s.drop_last(), m, s.last().0, i);
            }
        } else {
            lemma_pending_keys_ordered(s.drop_last(), m, i, j);
        }
    }
}

/// Every pending item of a queue whose keys are bounded by `b` has an id
/// at most `b`.
proof fn lemma_pending_key_le(s: Seq<(u64, Seq<char>)>, m: ProjectionModel, b: u64, i: int)
    requires
        forall|a: int| 0 <= a < s.len() ==> (#[trigger] s[a]).0 <= b,
        0 <= i < spec_pending(s, m).len(),
    ensures
        spec_pending(s, m)[i].queued_id->0 <= b,
    decreases s.len(),
{
    if s.len() > 0 {
        let rest = spec_pending(s.drop_last(), m);
        assert(forall|a: int| 0 <= a < s.len() - 1 ==> s.drop_last()[a] == s[a]);
        if item_keep(s.last(), m) && i == rest.len() {
            assert(spec_pending(s, m)[i] == mk_track(s.last(), m));
        } else {
            lemma_pending_key_le(s.drop_last(), m, b, i);
        }
    }
}

} // verus!
