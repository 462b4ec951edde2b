//! The playback engine's state: status, clamped volume, the local pending
//! queue, the active flag, and the per-track skip watermark — together with
//! the per-chunk sample scaling applied before PCM leaves the engine.
//!
//! The engine owns plain values; the loop around it performs the outside
//! work (fetching, reading PCM, appending log events) and drives these
//! transitions.

use vstd::prelude::*;

use crate::audio::{DjStatus, NowPlaying};
use crate::projection::QueuedTrack;

verus! {

// ---------------------------------------------------------------------
// Sample scaling
// ---------------------------------------------------------------------
/// The sample value carried by two little-endian bytes.
pub open spec fn le16(b0: u8, b1: u8) -> i16 {
    (b0 + b1 * 256) as u16 as i16
}

pub open spec fn low_byte(s: i16) -> u8 {
    ((s as u16) % 256) as u8
}

pub open spec fn high_byte(s: i16) -> u8 {
    ((s as u16) / 256) as u8
}

/// A sample scaled by `vol` percent, rounded towards zero.
pub open spec fn scale_spec(s: i16, vol: u8) -> i16 {
    if s >= 0 {
        ((s * vol) / 100) as i16
    } else {
        (0 - (((0 - s) * vol) / 100)) as i16
    }
}

/// Volume clamp on samples: scaling by at most 100 percent keeps every
/// sample within the signed 16-bit range and never grows its magnitude.
pub proof fn lemma_scale_sample_range(s: i16, vol: u8)
    requires
        vol <= 100,
    ensures
        -32768 <= scale_spec(s, vol) <= 32767,
        s >= 0 ==> 0 <= scale_spec(s, vol) <= s,
        s < 0 ==> s <= scale_spec(s, vol) <= 0,
{
    if s >= 0 {
        assert(0 <= (s * vol) / 100 <= s) by (nonlinear_arith)
            requires
                0 <= s <= 32767,
                0 <= vol <= 100,
        ;
    } else {
        assert(0 <= ((0 - s) * vol) / 100 <= 0 - s) by (nonlinear_arith)
            requires
                -32768 <= s < 0,
                0 <= vol <= 100,
        ;
    }
}

/// Scale one sample; integer arithmetic, clipping never needed because the
/// result cannot leave the sample range.
pub fn scale_sample(s: i16, vol: u8) -> (r: i16)
    requires
        vol <= 100,
    ensures
        r == scale_spec(s, vol),
{
    proof {
        lemma_scale_sample_range(s, vol);
    }
    if s >= 0 {
        let su: u32 = s as u32;
        let vu: u32 = vol as u32;
        proof {
            assert(su * vu <= 3276700) by (nonlinear_arith)
                requires
                    su <= 32767,
                    vu <= 100,
            ;
        }
        let prod: u32 = su * vu;
        let q: u32 = prod / 100;
        proof {
            assert(q == (s * vol) / 100 && q <= 32767) by (nonlinear_arith)
                requires
                    0 <= s <= 32767,
                    0 <= vol <= 100,
                    su == s,
                    vu == vol,
                    prod == su * vu,
                    q == prod / 100,
            ;
        }
        q as i16
    } else {
        let neg: u32 = (-(s as i32)) as u32;
        let vu: u32 = vol as u32;
        proof {
            assert(neg * vu <= 3276800) by (nonlinear_arith)
                requires
                    neg <= 32768,
                    vu <= 100,
            ;
        }
        let prod: u32 = neg * vu;
        let q: u32 = prod / 100;
        proof {
            assert(q == ((0 - s) * vol) / 100 && q <= 32768) by (nonlinear_arith)
                requires
                    -32768 <= s < 0,
                    0 <= vol <= 100,
                    neg == 0 - s,
                    vu == vol,
                    prod == neg * vu,
                    q == prod / 100,
            ;
        }
        (-(q as i32)) as i16
    }
}

/// Whole-chunk scaling: each 16-bit little-endian sample scaled by the
/// volume; a trailing odd byte is dropped.
pub open spec fn scale_chunk_spec(bytes: Seq<u8>, vol: u8) -> Seq<u8> {
    Seq::new(
        (2 * (bytes.len() as int / 2)) as nat,
        |i: int|
            {
                let scaled = scale_spec(le16(bytes[2 * (i / 2)], bytes[2 * (i / 2) + 1]), vol);
                if i % 2 == 0 {
                    low_byte(scaled)
                } else {
                    high_byte(scaled)
                }
            },
    )
}

// ---------------------------------------------------------------------
// The engine
// ---------------------------------------------------------------------
/// The engine's owned state.
pub struct PlaybackEngine {
    pub status: DjStatus,
    pub volume: u8,
    pub queue: Vec<QueuedTrack>,
    pub active: bool,
    pub local_playback_enabled: bool,
    pub playing_event_id: Option<u64>,
}

pub open spec fn urls_of(items: Seq<QueuedTrack>) -> Seq<Seq<char>> {
    items.map(|i: int, t: QueuedTrack| t.url@)
}

impl PlaybackEngine {
    /// The volume is a percentage; every operation keeps it clamped.
    pub open spec fn wf(&self) -> bool {
        self.volume <= 100
    }

    pub fn new() -> (r: PlaybackEngine)
        ensures
            r.wf(),
            r.status == DjStatus::Idle,
            r.volume == 50,
            r.queue@.len() == 0,
            !r.active,
            r.local_playback_enabled,
            r.playing_event_id is None,
    {
        PlaybackEngine {
            status: DjStatus::Idle,
            volume: 50,
            queue: Vec::new(),
            active: false,
            local_playback_enabled: true,
            playing_event_id: None,
        }
    }

    /// Mark the engine active; starting twice is a no-op beyond that.
    pub fn start(&mut self) -> (r: Result<(), String>)
        requires
            old(self).wf(),
        ensures
            r is Ok,
            final(self).wf(),
            final(self).active,
            final(self).status == old(self).status,
            final(self).volume == old(self).volume,
            final(self).queue == old(self).queue,
            final(self).local_playback_enabled == old(self).local_playback_enabled,
            final(self).playing_event_id == old(self).playing_event_id,
    {
        self.active = true;
        Ok(())
    }

    /// Stop: drop the active flag, clear the local queue, go idle.
    pub fn stop(&mut self) -> (r: Result<(), String>)
        requires
            old(self).wf(),
        ensures
            r is Ok,
            final(self).wf(),
            !final(self).active,
            final(self).status == DjStatus::Idle,
            final(self).queue@.len() == 0,
            final(self).volume == old(self).volume,
            final(self).local_playback_enabled == old(self).local_playback_enabled,
            final(self).playing_event_id is None,
    {
        self.active = false;
        self.status = DjStatus::Idle;
        self.queue = Vec::new();
        self.playing_event_id = None;
        Ok(())
    }

    pub fn status(&self) -> (r: DjStatus)
        ensures
            r == self.status,
    {
        self.status.duplicate()
    }

    /// Set the volume, clamped to 100.
    pub fn set_volume(&mut self, volume: u8) -> (r: Result<(), String>)
        ensures
            r is Ok,
            final(self).wf(),
            final(self).volume == if volume > 100 { 100u8 } else { volume },
            final(self).status == old(self).status,
            final(self).queue == old(self).queue,
            final(self).active == old(self).active,
            final(self).local_playback_enabled == old(self).local_playback_enabled,
            final(self).playing_event_id == old(self).playing_event_id,
    {
        self.volume = if volume > 100 { 100 } else { volume };
        Ok(())
    }

    pub fn volume(&self) -> (r: u8)
        ensures
            r == self.volume,
    {
        self.volume
    }

    pub fn set_local_playback(&mut self, enabled: bool)
        ensures
            final(self).local_playback_enabled == enabled,
            final(self).status == old(self).status,
            final(self).volume == old(self).volume,
            final(self).queue == old(self).queue,
            final(self).active == old(self).active,
            final(self).playing_event_id == old(self).playing_event_id,
    {
        self.local_playback_enabled = enabled;
    }

    /// Add a track to the local pending queue; its title is a placeholder
    /// until metadata arrives.
    pub fn queue_track(&mut self, url: String, queued_by: Option<String>) -> (r: Result<
        (),
        String,
    >)
        ensures
            r is Ok,
            final(self).queue@.len() == old(self).queue@.len() + 1,
            final(self).queue@.drop_last() == old(self).queue@,
            final(self).queue@.last().url == url,
            final(self).queue@.last().title@ == "Loading..."@,
            final(self).queue@.last().queued_id is None,
            final(self).queue@.last().queued_by == queued_by,
            final(self).status == old(self).status,
            final(self).volume == old(self).volume,
            final(self).active == old(self).active,
            final(self).local_playback_enabled == old(self).local_playback_enabled,
            final(self).playing_event_id == old(self).playing_event_id,
    {
        let track = QueuedTrack {
            url,
            title: String::from_str("Loading..."),
            queued_id: None,
            queued_by,
        };
        self.queue.push(track);
        proof {
            assert(self.queue@.drop_last() =~= old(self).queue@);
        }
        Ok(())
    }

    /// Replace the local queue with a fresh projection of the shared log.
    pub fn sync_queue(&mut self, items: Vec<QueuedTrack>)
        ensures
            final(self).queue == items,
            final(self).status == old(self).status,
            final(self).volume == old(self).volume,
            final(self).active == old(self).active,
            final(self).local_playback_enabled == old(self).local_playback_enabled,
            final(self).playing_event_id == old(self).playing_event_id,
    {
        self.queue = items;
    }

    /// The queued URLs, in play order.
    pub fn get_queue(&self) -> (r: Vec<String>)
        ensures
            r.deep_view() == urls_of(self.queue@),
    {
        let mut out: Vec<String> = Vec::new();
        let mut i: usize = 0;
        proof {
            assert(out.deep_view() =~= urls_of(self.queue@).subrange(0, 0));
        }
        while i < self.queue.len()
            invariant
                i <= self.queue@.len(),
                out.deep_view() == urls_of(self.queue@).subrange(0, i as int),
            decreases self.queue@.len() - i,
        {
            let ghost pre = out@;
            let ghost pre_deep = out.deep_view();
            out.push(self.queue[i].url.clone());
            proof {
                let full = urls_of(self.queue@);
                assert(full[i as int] == self.queue@[i as int].url@);
                assert(pre_deep.len() == i);
                assert forall|j: int|
                    0 <= j < i + 1 implies out.deep_view()[j] == full.subrange(
                    0,
                    i as int + 1,
                )[j] by {
                    assert(out.deep_view()[j] == out@[j]@);
                    if j < i {
                        assert(out@[j] == pre[j]);
                        assert(pre_deep[j] == pre[j]@);
                        assert(pre_deep[j] == full.subrange(0, i as int)[j]);
                    } else {
                        assert(out@[j]@ == self.queue@[i as int].url@);
                    }
                }
                assert(out.deep_view() =~= full.subrange(0, i as int + 1));
            }
            i = i + 1;
        }
        proof {
            assert(urls_of(self.queue@).subrange(0, self.queue@.len() as int) =~= urls_of(
                self.queue@,
            ));
        }
        out
    }

    /// Take the head of the pending queue, if any.
    pub fn pop_next(&mut self) -> (r: Option<QueuedTrack>)
        ensures
            old(self).queue@.len() == 0 ==> r is None && final(self).queue == old(self).queue,
            old(self).queue@.len() > 0 ==> r == Some(old(self).queue@[0]) && final(self).queue@
                == old(self).queue@.drop_first(),
            final(self).status == old(self).status,
            final(self).volume == old(self).volume,
            final(self).active == old(self).active,
            final(self).local_playback_enabled == old(self).local_playback_enabled,
            final(self).playing_event_id == old(self).playing_event_id,
    {
        if self.queue.len() == 0 {
            return None;
        }
        let t = self.queue.remove(0);
        proof {
            assert(self.queue@ =~= old(self).queue@.drop_first());
        }
        Some(t)
    }

    /// A track was popped and its stream is being resolved.
    pub fn begin_loading(&mut self)
        ensures
            final(self).status == DjStatus::Loading,
            final(self).volume == old(self).volume,
            final(self).queue == old(self).queue,
            final(self).active == old(self).active,
            final(self).local_playback_enabled == old(self).local_playback_enabled,
            final(self).playing_event_id == old(self).playing_event_id,
    {
        self.status = DjStatus::Loading;
    }

    /// The stream resolved: show the title, and remember the id of the
    /// `playing` event written for this track as the skip watermark.
    pub fn begin_playing(&mut self, title: String, playing_event_id: Option<u64>)
        ensures
            final(self).status is Playing,
            final(self).status->Playing_0.track == title,
            final(self).status->Playing_0.artist@ == Seq::<char>::empty(),
            final(self).playing_event_id == playing_event_id,
            final(self).volume == old(self).volume,
            final(self).queue == old(self).queue,
            final(self).active == old(self).active,
            final(self).local_playback_enabled == old(self).local_playback_enabled,
    {
        self.status = DjStatus::Playing(NowPlaying { track: title, artist: String::new() });
        self.playing_event_id = playing_event_id;
    }

    /// The track's attempt concluded; the watermark no longer applies.
    pub fn finish_track(&mut self)
        ensures
            final(self).playing_event_id is None,
            final(self).status == old(self).status,
            final(self).volume == old(self).volume,
            final(self).queue == old(self).queue,
            final(self).active == old(self).active,
            final(self).local_playback_enabled == old(self).local_playback_enabled,
    {
        self.playing_event_id = None;
    }

    /// Scale a PCM chunk by the current volume, sample by sample.
    pub fn process_chunk(&self, chunk: &Vec<u8>) -> (r: Vec<u8>)
        requires
            self.wf(),
        ensures
            r@ == scale_chunk_spec(chunk@, self.volume),
    {
        scale_chunk(chunk, self.volume)
    }
}

/// Scale each 16-bit little-endian sample of a chunk.
pub fn scale_chunk(chunk: &Vec<u8>, vol: u8) -> (r: Vec<u8>)
    requires
        vol <= 100,
    ensures
        r@ == scale_chunk_spec(chunk@, vol),
{
    let ghost target = scale_chunk_spec(chunk@, vol);
    let n = chunk.len() / 2;
    let mut out: Vec<u8> = Vec::new();
    let mut k: usize = 0;
    while k < n
        invariant
            k <= n,
            n as int == chunk@.len() as int / 2,
            chunk@.len() <= usize::MAX,
            vol <= 100,
            target == scale_chunk_spec(chunk@, vol),
            out@.len() == 2 * k,
            forall|i: int| 0 <= i < 2 * k ==> out@[i] == target[i],
        decreases n - k,
    {
        proof {
            assert(chunk@.len() as int == 2 * (chunk@.len() as int / 2) + chunk@.len() as int % 2);
            assert(2 * k + 1 < chunk@.len());
        }
        let b0 = chunk[2 * k];
        let b1 = chunk[2 * k + 1];
        let u: u16 = b0 as u16 + (b1 as u16) * 256;
        #[verifier::truncate]
        let s: i16 = u as i16;
        proof {
            assert(s == le16(chunk@[2 * k as int], chunk@[2 * k as int + 1]));
        }
        let scaled = scale_sample(s, vol);
        let su: u16 = scaled as u16;
        out.push((su % 256) as u8);
        out.push((su / 256) as u8);
        proof {
            assert(target[2 * k as int] == low_byte(scaled));
            assert(target[2 * k as int + 1] == high_byte(scaled));
        }
        k = k + 1;
    }
    proof {
        assert(out@ =~= target);
    }
    out
}

} // verus!
