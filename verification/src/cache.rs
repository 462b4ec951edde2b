//! The audio cache: stable keys extracted from track URLs, the paths of a
//! key's two artifacts, the recency-based eviction choice, and an
//! in-memory model of the keyed store with its bounded-size policy.
//! URLs the key extractor cannot parse are simply uncacheable; that is
//! never an error.

use vstd::prelude::*;
use vstd::string::StrSliceExecFns;
use vstd::string::StringExecFns;

use crate::projection::{kv_view, pairs_view, spec_sort_pairs};
use crate::text::{find_any3, find_seq, scan_find_any3, scan_find_seq};

verus! {

// ---------------------------------------------------------------------
// Cache keys from URLs
// ---------------------------------------------------------------------
/// The stable key of a track URL: the text after the first `v=` up to the
/// first of `&`, `#`, `?`; else the text after the first `youtu.be/` up to
/// the first of `?`, `&`, `#` or the next `youtu.be/`; else none.
pub open spec fn spec_video_id(s: Seq<char>) -> Option<Seq<char>> {
    let f = find_seq(s, "v="@, 0);
    if f >= 0 {
        let start = f + 2;
        let end = find_any3(s, start, s.len() as int, '&', '#', '?');
        Some(s.subrange(start, end))
    } else {
        let g = find_seq(s, "youtu.be/"@, 0);
        if g >= 0 {
            let start = g + 9;
            let occ2 = find_seq(s, "youtu.be/"@, start);
            let piece_end = if occ2 >= 0 {
                occ2
            } else {
                s.len() as int
            };
            let end = find_any3(s, start, piece_end, '?', '&', '#');
            Some(s.subrange(start, end))
        } else {
            None
        }
    }
}

/// Extract the stable cache key from a URL.
pub fn video_id(url: &str) -> (r: Option<String>)
    ensures
        match r {
            Some(id) => spec_video_id(url@) == Some(id@),
            None => spec_video_id(url@) is None,
        },
{
    let n = url.unicode_len();
    match scan_find_seq(url, "v=", 0) {
        Some(f) => {
            proof {
                reveal_strlit("v=");
            }
            let start = f + 2;
            let end = scan_find_any3(url, start, n, '&', '#', '?');
            Some(url.substring_char(start, end).to_owned())
        },
        None => {
            match scan_find_seq(url, "youtu.be/", 0) {
                Some(g) => {
                    proof {
                        reveal_strlit("youtu.be/");
                    }
                    let start = g + 9;
                    let piece_end = match scan_find_seq(url, "youtu.be/", start) {
                        Some(occ2) => occ2,
                        None => n,
                    };
                    let end = scan_find_any3(url, start, piece_end, '?', '&', '#');
                    proof {
                        crate::text::lemma_find_seq_bounds(url@, "youtu.be/"@, start as int);
                    }
                    Some(url.substring_char(start, end).to_owned())
                },
                None => None,
            }
        },
    }
}

/// A fully resolved track: its title and its decoded audio bytes.
#[derive(Debug, Clone, PartialEq)]
pub struct TrackInfo {
    pub title: String,
    pub audio_data: Vec<u8>,
}

/// Knows where a key's artifacts live under the cache directory.
pub struct YtDlpSource {
    pub cache_dir: Option<String>,
}

impl YtDlpSource {
    pub fn new(cache_dir: Option<String>) -> (r: YtDlpSource)
        ensures
            r.cache_dir == cache_dir,
    {
        YtDlpSource { cache_dir }
    }

    /// The decoded-PCM artifact's path for a URL, when both a cache
    /// directory and a stable key exist.
    pub fn cache_path(&self, url: &str) -> (r: Option<String>)
        ensures
            match r {
                Some(p) => {
                    &&& self.cache_dir is Some
                    &&& spec_video_id(url@) is Some
                    &&& p@ == self.cache_dir->0@ + "/"@ + spec_video_id(url@)->0 + ".pcm"@
                },
                None => self.cache_dir is None || spec_video_id(url@) is None,
            },
    {
        let dir = match &self.cache_dir {
            Some(d) => d,
            None => {
                return None;
            },
        };
        let id = match video_id(url) {
            Some(id) => id,
            None => {
                return None;
            },
        };
        let mut p = dir.clone();
        p.append("/");
        p.append(id.as_str());
        p.append(".pcm");
        Some(p)
    }

    /// The cached-title artifact's path for a URL.
    pub fn title_cache_path(&self, url: &str) -> (r: Option<String>)
        ensures
            match r {
                Some(p) => {
                    &&& self.cache_dir is Some
                    &&& spec_video_id(url@) is Some
                    &&& p@ == self.cache_dir->0@ + "/"@ + spec_video_id(url@)->0 + ".title"@
                },
                None => self.cache_dir is None || spec_video_id(url@) is None,
            },
    {
        let dir = match &self.cache_dir {
            Some(d) => d,
            None => {
                return None;
            },
        };
        let id = match video_id(url) {
            Some(id) => id,
            None => {
                return None;
            },
        };
        let mut p = dir.clone();
        p.append("/");
        p.append(id.as_str());
        p.append(".title");
        Some(p)
    }
}

// ---------------------------------------------------------------------
// Eviction choice
// ---------------------------------------------------------------------
pub open spec fn paths_of(s: Seq<(u64, Seq<char>)>) -> Seq<Seq<char>> {
    s.map(|i: int, p: (u64, Seq<char>)| p.1)
}

/// Which cached artifacts to delete: given `(modification stamp, path)`
/// entries, the `count - max_items` least recently modified, oldest
/// first; none when the count is within the bound.
pub fn eviction_victims(entries: Vec<(u64, String)>, max_items: usize) -> (r: Vec<String>)
    ensures
        entries@.len() <= max_items ==> r@.len() == 0,
        entries@.len() > max_items ==> r.deep_view() == paths_of(
            spec_sort_pairs(pairs_view(entries@)),
        ).subrange(0, entries@.len() - max_items),
{
    if entries.len() <= max_items {
        return Vec::new();
    }
    let count = entries.len();
    let ghost eseq = entries@;
    let sorted = crate::projection::sort_pairs(entries);
    let ghost sv = pairs_view(sorted@);
    proof {
        crate::projection::lemma_kv_sort_commute::<String>(eseq);
        assert(kv_view(eseq) =~= pairs_view(eseq));
        assert(kv_view(sorted@) =~= sv);
        assert(sv == spec_sort_pairs(pairs_view(eseq)));
    }
    let k = count - max_items;
    let mut out: Vec<String> = Vec::new();
    let mut i: usize = 0;
    proof {
        crate::projection::lemma_sort_pairs_len::<Seq<char>>(pairs_view(eseq));
        assert(sv.len() == eseq.len());
        assert(out.deep_view() =~= paths_of(sv).subrange(0, 0));
    }
    while i < k
        invariant
            i <= k,
            k <= sorted@.len(),
            sv == pairs_view(sorted@),
            out.deep_view() == paths_of(sv).subrange(0, i as int),
        decreases k - i,
    {
        let ghost pre = out@;
        let ghost pre_deep = out.deep_view();
        out.push(sorted[i].1.clone());
        proof {
            assert(pre_deep.len() == i);
            assert(pre.len() == i);
            assert(out@ == pre.push(out@[i as int]));
            assert(sv[i as int] == (sorted@[i as int].0, sorted@[i as int].1@));
            assert(paths_of(sv)[i as int] == sv[i as int].1);
            assert forall|j: int|
                0 <= j < i + 1 implies out.deep_view()[j] == paths_of(sv).subrange(
                0,
                i as int + 1,
            )[j] by {
                assert(out.deep_view()[j] == out@[j]@);
                if j < i {
                    assert(out@[j] == pre[j]);
                    assert(pre_deep[j] == pre[j]@);
                    assert(pre_deep[j] == paths_of(sv).subrange(0, i as int)[j]);
                } else {
                    assert(out@[j]@ == sv[i as int].1);
                }
            }
            assert(out.deep_view() =~= paths_of(sv).subrange(0, i as int + 1));
        }
        i = i + 1;
    }
    out
}

/// Eviction bound: in the stamp-sorted entries that `eviction_victims`
/// slices, every chosen victim (an index below the cut) was modified no
/// later than any survivor (an index at or past the cut) — so exactly the
/// most recently modified entries remain.
pub proof fn lemma_eviction_victims_oldest(entries: Seq<(u64, Seq<char>)>, i: int, j: int)
    requires
        0 <= i < j < entries.len(),
    ensures
        spec_sort_pairs(entries)[i].0 <= spec_sort_pairs(entries)[j].0,
{
    crate::projection::lemma_sort_pairs_len(entries);
    crate::projection::lemma_sort_pairs_sorted(entries);
}

// ---------------------------------------------------------------------
// In-memory cache model
// ---------------------------------------------------------------------
/// One cached track: the key, its title and decoded PCM, and a recency
/// stamp. The pair of artifacts lives or dies together.
pub struct CacheEntry {
    pub key: String,
    pub title: String,
    pub pcm: Vec<u8>,
    pub stamp: u64,
}

pub struct EntryView {
    pub key: Seq<char>,
    pub title: Seq<char>,
    pub pcm: Seq<u8>,
    pub stamp: u64,
}

impl View for CacheEntry {
    type V = EntryView;

    open spec fn view(&self) -> EntryView {
        EntryView { key: self.key@, title: self.title@, pcm: self.pcm@, stamp: self.stamp }
    }
}

pub open spec fn entries_view(s: Seq<CacheEntry>) -> Seq<EntryView> {
    s.map(|i: int, e: CacheEntry| e@)
}

/// The entry for a key, the latest stored winning.
pub open spec fn lookup_spec(s: Seq<EntryView>, k: Seq<char>) -> Option<EntryView>
    decreases s.len(),
{
    if s.len() == 0 {
        None
    } else if s.last().key == k {
        Some(s.last())
    } else {
        lookup_spec(s.drop_last(), k)
    }
}

/// The entries without any entry for the key.
pub open spec fn remove_key(s: Seq<EntryView>, k: Seq<char>) -> Seq<EntryView>
    decreases s.len(),
{
    if s.len() == 0 {
        s
    } else if s.last().key == k {
        remove_key(s.drop_last(), k)
    } else {
        remove_key(s.drop_last(), k).push(s.last())
    }
}

/// Storing replaces any entry for the key and appends the new one.
pub open spec fn spec_store(s: Seq<EntryView>, e: EntryView) -> Seq<EntryView> {
    remove_key(s, e.key).push(e)
}

/// The cache with its configured capacity.
pub struct AudioCache {
    pub entries: Vec<CacheEntry>,
    pub capacity: usize,
}

impl AudioCache {
    pub fn new(capacity: usize) -> (r: AudioCache)
        ensures
            r.entries@.len() == 0,
            r.capacity == capacity,
    {
        AudioCache { entries: Vec::new(), capacity }
    }

    /// Look a key up; a hit yields the cached title and PCM.
    pub fn lookup(&self, key: &str) -> (r: Option<(String, Vec<u8>)>)
        ensures
            match r {
                Some(p) => {
                    &&& lookup_spec(entries_view(self.entries@), key@) is Some
                    &&& lookup_spec(entries_view(self.entries@), key@)->0.title == p.0@
                    &&& lookup_spec(entries_view(self.entries@), key@)->0.pcm == p.1@
                },
                None => lookup_spec(entries_view(self.entries@), key@) is None,
            },
    {
        let ghost ev = entries_view(self.entries@);
        let k = String::from_str(key);
        let mut j: usize = self.entries.len();
        proof {
            assert(ev.subrange(0, ev.len() as int) =~= ev);
        }
        while j > 0
            invariant
                j <= self.entries@.len(),
                ev == entries_view(self.entries@),
                k@ == key@,
                lookup_spec(ev, key@) == lookup_spec(ev.subrange(0, j as int), key@),
            decreases j,
        {
            proof {
                assert(ev.subrange(0, j as int).last() == ev[j - 1]);
                assert(ev.subrange(0, j as int).drop_last() =~= ev.subrange(0, j - 1));
                assert(ev[j - 1] == self.entries@[j - 1]@);
            }
            if self.entries[j - 1].key.eq(&k) {
                return Some((self.entries[j - 1].title.clone(), self.entries[j - 1].pcm.clone()));
            }
            j = j - 1;
        }
        proof {
            assert(ev.subrange(0, 0) =~= Seq::<EntryView>::empty());
        }
        None
    }

    /// Store a key's artifacts together, replacing any previous entry.
    pub fn store(&mut self, key: String, title: String, pcm: Vec<u8>, stamp: u64)
        ensures
            entries_view(final(self).entries@) == spec_store(
                entries_view(old(self).entries@),
                EntryView { key: key@, title: title@, pcm: pcm@, stamp },
            ),
            final(self).capacity == old(self).capacity,
    {
        let ghost ev = entries_view(self.entries@);
        let mut kept: Vec<CacheEntry> = Vec::new();
        let mut i: usize = 0;
        proof {
            assert(entries_view(kept@) =~= remove_key(ev.subrange(0, 0), key@));
            assert(ev.subrange(0, 0) =~= Seq::<EntryView>::empty());
        }
        while i < self.entries.len()
            invariant
                i <= self.entries@.len(),
                ev == entries_view(self.entries@),
                entries_view(kept@) == remove_key(ev.subrange(0, i as int), key@),
            decreases self.entries@.len() - i,
        {
            proof {
                assert(ev.subrange(0, i as int + 1).drop_last() =~= ev.subrange(0, i as int));
                assert(ev.subrange(0, i as int + 1).last() == ev[i as int]);
                assert(ev[i as int] == self.entries@[i as int]@);
            }
            if !self.entries[i].key.eq(&key) {
                let ghost pre = entries_view(kept@);
                let e = CacheEntry {
                    key: self.entries[i].key.clone(),
                    title: self.entries[i].title.clone(),
                    pcm: self.entries[i].pcm.clone(),
                    stamp: self.entries[i].stamp,
                };
                proof {
                    assert(e@ == ev[i as int]);
                }
                kept.push(e);
                proof {
                    assert(entries_view(kept@) =~= pre.push(ev[i as int]));
                }
            }
            i = i + 1;
        }
        proof {
            assert(ev.subrange(0, ev.len() as int) =~= ev);
        }
        let ghost removed = entries_view(kept@);
        kept.push(CacheEntry { key, title, pcm, stamp });
        proof {
            assert(entries_view(kept@) =~= removed.push(
                EntryView { key: key@, title: title@, pcm: pcm@, stamp },
            ));
        }
        self.entries = kept;
    }
}

/// Cache round trip: after a key's artifacts are stored, a lookup of that
/// key yields exactly the stored title and PCM — no resolver needed.
pub proof fn lemma_cache_round_trip(s: Seq<EntryView>, e: EntryView)
    ensures
        lookup_spec(spec_store(s, e), e.key) == Some(e),
{
    let stored = spec_store(s, e);
    assert(stored.last() == e);
}

/// Whether serving this URL requires the external resolver: the URL has
/// no stable key, or the key has no cached entry.
pub fn needs_resolve(cache: &AudioCache, url: &str) -> (r: bool)
    ensures
        r == (spec_video_id(url@) is None || lookup_spec(
            entries_view(cache.entries@),
            spec_video_id(url@)->0,
        ) is None),
{
    let id = match video_id(url) {
        Some(id) => id,
        None => {
            return true;
        },
    };
    match cache.lookup(id.as_str()) {
        Some(_) => false,
        None => true,
    }
}

} // verus!
