use prefetch_cache::cache::{Cache, Prefetch, SourceKind};

fn v(s: &str) -> Vec<u8> {
    s.as_bytes().to_vec()
}

fn ca(digest: &str, path: &str) -> Prefetch {
    Prefetch { prefetch: SourceKind::ContentAddressed { digest: v(digest) }, path: v(path) }
}

fn other(path: &str) -> Prefetch {
    Prefetch { prefetch: SourceKind::Other, path: v(path) }
}

fn digest_of(p: &Prefetch) -> Vec<u8> {
    match &p.prefetch {
        SourceKind::ContentAddressed { digest } => digest.clone(),
        SourceKind::Other => panic!("not content-addressed"),
    }
}

#[test]
fn end_to_end_scenario() {
    let mut cache = Cache::new(None);
    cache.insert(&v("pkg-a-1.0"), ca("aaa111", "/store/pkg-a"));
    let bytes = cache.flush();
    assert_eq!(bytes, v("pkg-a-1.0 aaa111 /store/pkg-a\n"));

    let mut reopened = Cache::new(Some(bytes));
    let hit = reopened.get(&v("pkg-a-1.0")).expect("exact locator must be found");
    assert_eq!(digest_of(&hit), v("aaa111"));
    assert_eq!(hit.path, v("/store/pkg-a"));

    let by_prefix = reopened.get(&v("pkg-a")).expect("prefix of the locator must be found");
    assert_eq!(digest_of(&by_prefix), v("aaa111"));
    assert_eq!(by_prefix.path, v("/store/pkg-a"));

    assert!(reopened.get(&v("pkg-b")).is_none());
}

#[test]
fn prefix_lookup() {
    let mut cache = Cache::new(Some(v("pkg-archive-1.0.0 abc123 /store/pkg-archive\n")));
    assert!(cache.get(&v("pkg-archive-1.0.0")).is_some());
    let hit = cache.get(&v("pkg-archive-1.0")).expect("stored locator begins with the query");
    assert_eq!(digest_of(&hit), v("abc123"));
    assert!(cache.get(&v("pkg-archive-2")).is_none());
}

#[test]
fn non_cacheable_is_usable_but_not_durable() {
    let mut cache = Cache::new(None);
    cache.insert(&v("local-pkg"), other("/work/local-pkg"));

    // Usable for the rest of the run ...
    let hit = cache.get(&v("local-pkg")).expect("overlay entries are visible");
    assert!(matches!(hit.prefetch, SourceKind::Other));
    assert_eq!(hit.path, v("/work/local-pkg"));

    // ... but never written out.
    let bytes = cache.flush();
    assert_eq!(bytes, Vec::<u8>::new());

    let mut reopened = Cache::new(Some(bytes));
    assert!(reopened.get(&v("local-pkg")).is_none());
}

#[test]
fn missing_file_yields_empty_cache() {
    let mut cache = Cache::new(None);
    assert!(cache.get(&v("anything")).is_none());
    assert_eq!(cache.flush(), Vec::<u8>::new());
}

#[test]
fn malformed_line_is_a_miss() {
    // Two space-separated fields only: the line is ignored, not fatal.
    let mut cache = Cache::new(Some(v("pkg-x aaa\n")));
    assert!(cache.get(&v("pkg-x")).is_none());
}

#[test]
fn malformed_line_does_not_disturb_the_rest() {
    let mut cache = Cache::new(Some(v("pkg-a aaa /sa\npkg-m broken\npkg-z zzz /sz\n")));
    assert!(cache.get(&v("pkg-a")).is_some());
    assert!(cache.get(&v("pkg-m")).is_none());
    assert!(cache.get(&v("pkg-z")).is_some());
}

#[test]
fn flush_merges_sorted() {
    let mut cache = Cache::new(Some(v("aa x1 /a\ncc x3 /c\n")));
    cache.insert(&v("bb"), ca("x2", "/b"));
    cache.insert(&v("dd"), ca("x4", "/d"));
    let bytes = cache.flush();
    assert_eq!(bytes, v("aa x1 /a\nbb x2 /b\ncc x3 /c\ndd x4 /d\n"));
}

#[test]
fn duplicate_locator_keeps_stale_line() {
    // On a locator tie the overlay entry is written first and the stale
    // persisted line is written again afterwards: two lines, new one first.
    let mut cache = Cache::new(Some(v("pkg-a old /old\n")));
    cache.insert(&v("pkg-a"), ca("new", "/new"));
    let bytes = cache.flush();
    assert_eq!(bytes, v("pkg-a new /new\npkg-a old /old\n"));
}

#[test]
fn later_insert_replaces_earlier() {
    let mut cache = Cache::new(None);
    cache.insert(&v("pkg-a"), ca("first", "/one"));
    cache.insert(&v("pkg-a"), ca("second", "/two"));
    let bytes = cache.flush();
    assert_eq!(bytes, v("pkg-a second /two\n"));
}

#[test]
fn round_trip_many() {
    let mut cache = Cache::new(None);
    let names = ["alpha", "bravo", "charlie", "delta", "echo"];
    for (i, name) in names.iter().enumerate() {
        let digest = format!("d{}", i);
        let path = format!("/store/{}", name);
        cache.insert(&v(name), ca(&digest, &path));
    }
    let bytes = cache.flush();

    let mut reopened = Cache::new(Some(bytes));
    for (i, name) in names.iter().enumerate() {
        let hit = reopened.get(&v(name)).expect("every flushed locator is found again");
        assert_eq!(digest_of(&hit), v(&format!("d{}", i)));
        assert_eq!(hit.path, v(&format!("/store/{}", name)));
    }
    assert!(reopened.get(&v("zulu")).is_none());
}

#[test]
fn overlay_shadows_persisted_on_get() {
    let mut cache = Cache::new(Some(v("pkg-a old /old\n")));
    cache.insert(&v("pkg-a"), ca("new", "/new"));
    let hit = cache.get(&v("pkg-a")).expect("present");
    assert_eq!(digest_of(&hit), v("new"));
    assert_eq!(hit.path, v("/new"));
}

#[test]
fn get_index_splits_three_fields() {
    let cache = Cache::new(Some(v("loc dig /path\n")));
    let (u, w, x) = cache.get_index(0, 13).expect("three fields");
    assert_eq!(u, v("loc"));
    assert_eq!(w, v("dig"));
    assert_eq!(x, v("/path"));
    // Four fields are as malformed as two.
    let four = Cache::new(Some(v("a b c d\n")));
    assert!(four.get_index(0, 7).is_none());
}

#[test]
fn file_without_trailing_newline_still_reads() {
    let mut cache = Cache::new(Some(v("pkg-a aaa /sa")));
    let hit = cache.get(&v("pkg-a")).expect("final unterminated line is a line");
    assert_eq!(digest_of(&hit), v("aaa"));
}

#[test]
fn empty_buffer_has_no_lines() {
    let mut cache = Cache::new(Some(Vec::new()));
    assert!(cache.get(&v("")).is_none());
    assert_eq!(cache.flush(), Vec::<u8>::new());
}
