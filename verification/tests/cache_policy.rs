//! Cache keys, artifact paths, the round trip, and bounded eviction.

use gezellig::cache::{eviction_victims, needs_resolve, video_id, AudioCache, YtDlpSource};

#[test]
fn video_id_reads_watch_urls() {
    assert_eq!(video_id("https://youtube.com/watch?v=abc123").as_deref(), Some("abc123"));
    assert_eq!(video_id("https://youtube.com/watch?v=abc&t=4").as_deref(), Some("abc"));
    assert_eq!(video_id("https://youtube.com/watch?v=abc#frag").as_deref(), Some("abc"));
}

#[test]
fn video_id_reads_short_urls() {
    assert_eq!(video_id("https://youtu.be/xyz").as_deref(), Some("xyz"));
    assert_eq!(video_id("https://youtu.be/xyz?t=9").as_deref(), Some("xyz"));
}

#[test]
fn unparseable_urls_are_uncacheable() {
    assert_eq!(video_id("https://example.com/song.mp3"), None);
}

#[test]
fn cache_paths_pair_pcm_and_title() {
    let src = YtDlpSource::new(Some("/tmp/audio".to_string()));
    assert_eq!(
        src.cache_path("https://youtu.be/abc").as_deref(),
        Some("/tmp/audio/abc.pcm")
    );
    assert_eq!(
        src.title_cache_path("https://youtu.be/abc").as_deref(),
        Some("/tmp/audio/abc.title")
    );
    let no_dir = YtDlpSource::new(None);
    assert_eq!(no_dir.cache_path("https://youtu.be/abc"), None);
}

/// A resolver that counts its invocations.
struct CountingResolver {
    calls: usize,
}

impl CountingResolver {
    fn fetch(&mut self) -> (String, Vec<u8>) {
        self.calls += 1;
        ("A Song".to_string(), vec![1, 2, 3, 4])
    }
}

#[test]
fn cache_round_trip_skips_the_resolver() {
    let url = "https://youtu.be/abc";
    let mut cache = AudioCache::new(10);
    let mut resolver = CountingResolver { calls: 0 };

    // First fetch: uncached, so the resolver runs and the entry is stored.
    assert!(needs_resolve(&cache, url));
    let (title, pcm) = resolver.fetch();
    let key = video_id(url).unwrap();
    cache.store(key.clone(), title.clone(), pcm.clone(), 1);

    // Second fetch: a hit with the same title and bytes, resolver untouched.
    assert!(!needs_resolve(&cache, url));
    let (hit_title, hit_pcm) = cache.lookup(&key).expect("entry is cached");
    assert_eq!(hit_title, title);
    assert_eq!(hit_pcm, pcm);
    assert_eq!(resolver.calls, 1);
}

#[test]
fn storing_a_key_twice_keeps_one_entry() {
    let mut cache = AudioCache::new(10);
    cache.store("k".to_string(), "old".to_string(), vec![1], 1);
    cache.store("k".to_string(), "new".to_string(), vec![2], 2);
    assert_eq!(cache.entries.len(), 1);
    let (title, pcm) = cache.lookup("k").unwrap();
    assert_eq!(title, "new");
    assert_eq!(pcm, vec![2]);
}

#[test]
fn enforce_cache_limit_removes_oldest() {
    // Twelve cached artifacts with staggered modification stamps and a
    // capacity of ten: exactly the two oldest pairs are chosen.
    let entries: Vec<(u64, String)> =
        (0..12u64).map(|i| (i, format!("video{i}.pcm"))).collect();
    let victims = eviction_victims(entries, 10);
    assert_eq!(victims, vec!["video0.pcm".to_string(), "video1.pcm".to_string()]);
}

#[test]
fn enforce_cache_limit_noop_under_limit() {
    let entries: Vec<(u64, String)> = (0..5u64).map(|i| (i, format!("v{i}.pcm"))).collect();
    let victims = eviction_victims(entries, 10);
    assert!(victims.is_empty());
}

#[test]
fn eviction_orders_by_stamp_not_position() {
    let entries = vec![
        (7u64, "late.pcm".to_string()),
        (1u64, "early.pcm".to_string()),
        (4u64, "middle.pcm".to_string()),
    ];
    let victims = eviction_victims(entries, 1);
    assert_eq!(victims, vec!["early.pcm".to_string(), "middle.pcm".to_string()]);
}
