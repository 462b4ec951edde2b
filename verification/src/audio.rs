//! Data types shared by the playback engine and its observers, together with
//! a stub pipeline used when no real audio backend is wired up.

use vstd::prelude::*;

verus! {

/// What is currently playing, as shown to observers.
#[derive(Debug, Clone, PartialEq)]
pub struct NowPlaying {
    pub track: String,
    pub artist: String,
}

/// The shared queue's notion of the current track.
#[derive(Debug, Clone, PartialEq)]
pub struct SharedNowPlaying {
    pub title: String,
    pub url: String,
}

/// One pending entry of the shared queue, as exposed to observers.
#[derive(Debug, Clone, PartialEq)]
pub struct SharedQueueItem {
    pub url: String,
    pub title: Option<String>,
    pub id: u64,
    pub queued_by: Option<String>,
}

/// One finished (played or failed) entry of the shared queue.
#[derive(Debug, Clone, PartialEq)]
pub struct SharedHistoryItem {
    pub url: String,
    pub title: Option<String>,
    pub queued_by: Option<String>,
}

/// The externally visible projection of the shared queue: pending entries in
/// play order, the current track if any, and finished entries most recent
/// first.
#[derive(Debug, Clone, PartialEq)]
pub struct SharedQueueSnapshot {
    pub queue: Vec<SharedQueueItem>,
    pub now_playing: Option<SharedNowPlaying>,
    pub history: Vec<SharedHistoryItem>,
}

/// The engine's status: exactly one value at a time.
#[derive(Debug, Clone, PartialEq)]
pub enum DjStatus {
    Idle,
    Loading,
    Playing(NowPlaying),
}

impl DjStatus {
    /// An explicit copy; equal to the original in every case.
    pub fn duplicate(&self) -> (r: DjStatus)
        ensures
            r == *self,
    {
        match self {
            DjStatus::Idle => DjStatus::Idle,
            DjStatus::Loading => DjStatus::Loading,
            DjStatus::Playing(np) => DjStatus::Playing(
                NowPlaying { track: np.track.clone(), artist: np.artist.clone() },
            ),
        }
    }
}

/// Replace the engine status with a new value.
pub fn update_status(status: &mut DjStatus, new_status: DjStatus)
    ensures
        *final(status) == new_status,
{
    *status = new_status;
}

/// Stub pipeline: keeps a status and a clamped volume, and does nothing else.
pub struct StubAudioPipeline {
    pub status: DjStatus,
    pub volume: u8,
}

impl StubAudioPipeline {
    pub fn new() -> (r: StubAudioPipeline)
        ensures
            r.status == DjStatus::Idle,
            r.volume == 50,
    {
        StubAudioPipeline { status: DjStatus::Idle, volume: 50 }
    }

    pub fn start(&mut self) -> (r: Result<(), String>)
        ensures
            r is Ok,
            final(self).status == DjStatus::Idle,
            final(self).volume == old(self).volume,
    {
        self.status = DjStatus::Idle;
        Ok(())
    }

    pub fn stop(&mut self) -> (r: Result<(), String>)
        ensures
            r is Ok,
            final(self).status == DjStatus::Idle,
            final(self).volume == old(self).volume,
    {
        self.status = DjStatus::Idle;
        Ok(())
    }

    pub fn status(&self) -> (r: DjStatus)
        ensures
            r == self.status,
    {
        self.status.duplicate()
    }

    pub fn set_volume(&mut self, volume: u8) -> (r: Result<(), String>)
        ensures
            r is Ok,
            final(self).volume == if volume > 100 { 100u8 } else { volume },
            final(self).status == old(self).status,
    {
        self.volume = if volume > 100 { 100 } else { volume };
        Ok(())
    }

    pub fn volume(&self) -> (r: u8)
        ensures
            r == self.volume,
    {
        self.volume
    }

    pub fn queue_track(&self, _url: String, _queued_by: Option<String>) -> (r: Result<(), String>)
        ensures
            r is Ok,
    {
        Ok(())
    }

    pub fn skip_track(&self) -> (r: Result<(), String>)
        ensures
            r is Ok,
    {
        Ok(())
    }

    pub fn get_queue(&self) -> (r: Vec<String>)
        ensures
            r@.len() == 0,
    {
        Vec::new()
    }
}

// ---------------------------------------------------------------------
// Views of the snapshot types
// ---------------------------------------------------------------------
pub struct ItemView {
    pub url: Seq<char>,
    pub title: Option<Seq<char>>,
    pub id: u64,
    pub queued_by: Option<Seq<char>>,
}

impl View for SharedQueueItem {
    type V = ItemView;

    open spec fn view(&self) -> ItemView {
        ItemView {
            url: self.url@,
            title: match self.title {
                Some(ref t) => Some(t@),
                None => None,
            },
            id: self.id,
            queued_by: match self.queued_by {
                Some(ref b) => Some(b@),
                None => None,
            },
        }
    }
}

pub struct HistView {
    pub url: Seq<char>,
    pub title: Option<Seq<char>>,
    pub queued_by: Option<Seq<char>>,
}

impl View for SharedHistoryItem {
    type V = HistView;

    open spec fn view(&self) -> HistView {
        HistView {
            url: self.url@,
            title: match self.title {
                Some(ref t) => Some(t@),
                None => None,
            },
            queued_by: match self.queued_by {
                Some(ref b) => Some(b@),
                None => None,
            },
        }
    }
}

pub struct SharedNowView {
    pub title: Seq<char>,
    pub url: Seq<char>,
}

impl View for SharedNowPlaying {
    type V = SharedNowView;

    open spec fn view(&self) -> SharedNowView {
        SharedNowView { title: self.title@, url: self.url@ }
    }
}

#[verifier::ext_equal]
pub struct SnapshotView {
    pub queue: Seq<ItemView>,
    pub now_playing: Option<SharedNowView>,
    pub history: Seq<HistView>,
}

pub open spec fn snap_queue_view(v: Seq<SharedQueueItem>) -> Seq<ItemView> {
    v.map(|i: int, t: SharedQueueItem| t@)
}

pub open spec fn snap_hist_view(v: Seq<SharedHistoryItem>) -> Seq<HistView> {
    v.map(|i: int, h: SharedHistoryItem| h@)
}

impl View for SharedQueueSnapshot {
    type V = SnapshotView;

    open spec fn view(&self) -> SnapshotView {
        SnapshotView {
            queue: snap_queue_view(self.queue@),
            now_playing: match self.now_playing {
                Some(ref n) => Some(n@),
                None => None,
            },
            history: snap_hist_view(self.history@),
        }
    }
}

} // verus!
