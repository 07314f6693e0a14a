use stele::media::cache::{is_cache_name, key, Cache, CacheEntry, Eviction, DEFAULT_CACHE_BYTES};
use stele::media::fetch::{FetchError, FetchLimits, Fetched, Fetcher, NoFetcher};
use stele::media::remote::{check_scheme, image_at, images_in, join, markdown_destination, rewrite_line, RedirectWalk};
use stele::media::residency::{RasterCache, Resident};
use stele::media::MediaMode;

#[test]
fn test_urls_that_differ_at_all_get_different_keys() {
    let urls = [
        "https://example.com/a.png",
        "https://example.com/b.png",
        "http://example.com/a.png",
        "https://example.com/a.png?v=1",
        "https://example.com/a.png?v=2",
        "https://example.com/a.png/",
        "https://example.com/A.png",
        "",
    ];
    let mut seen: Vec<String> = Vec::new();
    for url in urls {
        let k = key(url);
        assert_eq!(k.len(), 32, "{url}");
        assert!(!seen.contains(&k), "{url} collided with an earlier URL");
        seen.push(k);
    }
    assert_eq!(key("https://example.com/a.png"), key("https://example.com/a.png"));
}

#[test]
fn test_only_a_32_hex_key_or_its_part_file_is_recognised_as_ours() {
    assert!(is_cache_name(&key("https://example.com/a.png")));
    assert!(is_cache_name(&format!("{}.1234.part", key("https://x/"))));
    assert!(!is_cache_name("deadbeef"));
    assert!(!is_cache_name("important-notes.md"));
    assert!(!is_cache_name(&"A".repeat(32)));
    assert!(!is_cache_name(&format!("{}.png", key("https://x/"))));
    assert!(!is_cache_name(""));
}

#[test]
fn the_key_is_fnv1a_128_in_lower_case_hex() {
    assert_eq!(key(""), "6c62272e07bb014262b821756295c58d");
    assert_eq!(key("a"), "d228cb696f1a8caf78912b704e4a8964");
}

#[test]
fn test_a_hostile_url_cannot_name_a_file_outside_the_cache_directory() {
    let cache = Cache::at(b"/tmp/stele-cache".to_vec(), DEFAULT_CACHE_BYTES);
    for url in ["https://h/../../../../etc/passwd", "https://h/a\0b", "../../../../../../etc/passwd", "https://h/////"] {
        let path = cache.path_for(url);
        assert!(path.starts_with(b"/tmp/stele-cache/"), "{url}");
        let name = &path[b"/tmp/stele-cache/".len()..];
        assert_eq!(name.len(), 32, "{url}");
        assert!(name.iter().all(|b| b.is_ascii_digit() || (b'a'..=b'f').contains(b)), "{url}");
    }
}

fn cache_entry(name: &str, modified: u128, len: u64, is_file: bool) -> CacheEntry {
    CacheEntry { name: name.to_string(), path: format!("/c/{name}").into_bytes(), is_file, modified, len }
}

#[test]
fn eviction_takes_the_least_recently_used_of_its_own_files_only() {
    let a = key("https://x/a");
    let b = key("https://x/b");
    let c = key("https://x/c");
    let found = vec![
        cache_entry(&a, 30, 100, true),
        cache_entry("notes.md", 1, 1000, true),
        cache_entry(&b, 10, 100, true),
        cache_entry(&c, 20, 100, true),
        cache_entry(&key("https://x/d"), 5, 100, false),
    ];
    let mut eviction = Eviction::plan(found, 150);
    let first = eviction.next().cloned().unwrap();
    assert_eq!(first.name, b, "the oldest touch goes first");
    eviction.record(true);
    let second = eviction.next().cloned().unwrap();
    assert_eq!(second.name, c);
    eviction.record(false);
    let third = eviction.next().cloned().unwrap();
    assert_eq!(third.name, a, "a failed removal leaves the total, so eviction goes on");
    eviction.record(true);
    assert!(eviction.next().is_none());
}

#[test]
fn test_no_production_bound_is_zero_or_unordered() {
    let limits = FetchLimits::default();
    assert!(limits.connect_ms > 0);
    assert!(limits.request_ms >= limits.connect_ms, "a request must outlast its own connect");
    assert!(limits.document_budget_ms >= limits.request_ms, "a document must be allowed at least one whole request");
    assert!(limits.max_response_bytes > 0);
}

#[test]
fn test_every_failure_renders_as_prose_rather_than_a_debug_dump() {
    let errors = [
        FetchError::Timeout,
        FetchError::TooLarge { limit: 256 * 1024 * 1024 },
        FetchError::Status(404),
        FetchError::Transport("dns error".to_string()),
        FetchError::UnsupportedScheme("file".to_string()),
        FetchError::TooManyRedirects { cap: 4 },
        FetchError::UnusableRedirect,
        FetchError::NotAnImage,
        FetchError::CacheWrite("disk full".to_string()),
        FetchError::BudgetSpent,
    ];
    for error in errors {
        let message = error.message();
        assert!(!message.is_empty(), "{error:?} renders as nothing");
        assert!(!message.contains("Os {"), "{message}");
        assert!(!message.contains('{'), "{message}");
    }
    assert_eq!(
        FetchError::TooLarge { limit: 256 * 1024 * 1024 }.message(),
        "the response is larger than the 256 MiB stele will download"
    );
    assert_eq!(FetchError::Status(404).message(), "the host answered 404");
}

#[test]
fn test_the_no_network_fetcher_refuses_every_url() {
    let limits = FetchLimits::default();
    let error = NoFetcher.fetch("https://example.invalid/a.png", &limits).unwrap_err();
    assert!(matches!(error, FetchError::UnsupportedScheme(_)));
}

#[test]
fn test_only_http_and_https_are_fetched_and_the_rest_are_named() {
    assert!(check_scheme("http://example.com/a.png").is_ok());
    assert!(check_scheme("https://example.com/a.png").is_ok());
    assert!(check_scheme("HTTPS://example.com/a.png").is_ok());
    for (url, scheme) in [
        ("file:///etc/passwd", "file"),
        ("ftp://example.com/a.png", "ftp"),
        ("data:image/png;base64,AAAA", "data"),
        ("javascript:alert(1)", "javascript"),
        ("gopher://example.com/a", "gopher"),
        ("./local.png", "./local.png"),
    ] {
        let error = check_scheme(url).unwrap_err();
        let FetchError::UnsupportedScheme(named) = error else {
            panic!("{url} was not refused as a scheme: {error:?}");
        };
        assert_eq!(named, scheme, "{url}");
    }
}

fn chars(s: &str) -> Vec<char> {
    s.chars().collect()
}

#[test]
fn test_the_image_scanner_finds_the_destination_through_brackets_and_parens() {
    let cases = [
        ("![a](https://h/p.png)", "https://h/p.png"),
        ("![a [b] c](https://h/p.png)", "https://h/p.png"),
        ("![a](https://h/p_(1).png)", "https://h/p_(1).png"),
        ("![a](https://h/p.png \"t\")", "https://h/p.png"),
        ("![a](<https://h/p.png>)", "https://h/p.png"),
        ("![a](  https://h/p.png  )", "https://h/p.png"),
    ];
    for (line, expected) in cases {
        let span = image_at(&chars(line), 0).unwrap_or_else(|| panic!("no image in {line}"));
        assert_eq!(span.dest, expected, "{line}");
        assert_eq!(span.end, line.len(), "{line}");
    }
    assert!(image_at(&chars("![a] (https://h/p.png)"), 0).is_none());
    assert!(image_at(&chars("![a](https://h/p.png"), 0).is_none());
    assert!(image_at(&chars("![a"), 0).is_none());
}

#[test]
fn a_line_is_rewritten_only_where_an_image_resolved() {
    let line = chars("see ![a](https://h/a.png) and ![b](https://h/b.png \"t\").");
    let spans = images_in(&line);
    assert_eq!(spans.len(), 2);
    assert_eq!(spans[0].dest, "https://h/a.png");
    assert_eq!(spans[1].dest, "https://h/b.png");
    assert_eq!(rewrite_line(&line, &[None, None]), None);
    assert_eq!(
        rewrite_line(&line, &[None, Some("</c/k>".to_string())]).as_deref(),
        Some("see ![a](https://h/a.png) and ![b](</c/k> \"t\").")
    );
}

#[test]
fn test_a_path_with_no_valid_markdown_spelling_is_declined() {
    assert_eq!(markdown_destination(b"/tmp/cache/abc").as_deref(), Some("</tmp/cache/abc>"));
    assert_eq!(markdown_destination(b"/tmp/Jane Doe/abc").as_deref(), Some("</tmp/Jane Doe/abc>"));
    assert_eq!(markdown_destination(b"/tmp/a<b/abc"), None);
    assert_eq!(markdown_destination(b"/tmp/a>b/abc"), None);
    assert_eq!(markdown_destination(b"/tmp/a\nb/abc"), None);
    assert_eq!(markdown_destination(b"/tmp/a\\b/abc").as_deref(), Some("</tmp/a\\\\b/abc>"));
}

#[test]
fn redirects_resolve_in_three_forms_only() {
    assert_eq!(join("https://h/a.png", "https://cdn/b.png").as_deref(), Some("https://cdn/b.png"));
    assert_eq!(join("https://h/a.png", "//cdn/b.png").as_deref(), Some("https://cdn/b.png"));
    assert_eq!(join("https://h:8080/x/a.png?q", "/b.png").as_deref(), Some("https://h:8080/b.png"));
    assert_eq!(join("https://h/x/a.png", "b.png"), None);
    assert_eq!(join("https://h/x/a.png", "   "), None);
}

#[test]
fn a_redirect_walk_checks_every_hop_and_stops_at_its_cap() {
    let mut walk = RedirectWalk::start("https://h/a.png", 1).unwrap();
    assert!(walk.may_request());
    assert_eq!(walk.on_reply(Fetched::Redirect("/b.png".to_string())).unwrap(), None);
    assert_eq!(walk.current(), "https://h/b.png");
    assert!(walk.may_request());
    assert_eq!(walk.on_reply(Fetched::Redirect("/c.png".to_string())).unwrap(), None);
    assert!(!walk.may_request());
    assert!(matches!(walk.exhausted(), FetchError::TooManyRedirects { cap: 1 }));

    let mut walk = RedirectWalk::start("https://h/a.png", 4).unwrap();
    let err = walk.on_reply(Fetched::Redirect("file:///etc/passwd".to_string())).unwrap_err();
    assert!(matches!(err, FetchError::UnsupportedScheme(s) if s == "file"));
    assert_eq!(walk.current(), "https://h/a.png");

    let mut walk = RedirectWalk::start("https://h/a.png", 4).unwrap();
    assert!(matches!(walk.on_reply(Fetched::Redirect("b.png".to_string())), Err(FetchError::UnusableRedirect)));

    let mut walk = RedirectWalk::start("https://h/a.png", 0).unwrap();
    assert_eq!(walk.on_reply(Fetched::Body(vec![1, 2, 3])).unwrap(), Some(vec![1, 2, 3]));
    assert_eq!(walk.origin(), "https://h/a.png");

    assert!(matches!(RedirectWalk::start("data:x", 4), Err(FetchError::UnsupportedScheme(s)) if s == "data"));
}

fn record(n: u32, bytes: u64) -> Resident {
    Resident::new(n, (10, 10), (10, 10), bytes)
}

#[test]
fn test_a_budget_that_fits_forty_rasters_keeps_forty_rasters() {
    let mut cache = RasterCache::new(40 * 100);
    let pinned: Vec<u64> = Vec::new();
    for n in 0..40u32 {
        assert!(
            cache.insert(n as u64, record(n + 1, 100), &pinned).is_empty(),
            "nothing may be evicted while the budget still fits {n}"
        );
    }
    assert_eq!(cache.len(), 40);
    assert_eq!(cache.bytes_resident(), 4_000);
}

#[test]
fn test_the_least_recently_used_raster_is_the_one_the_budget_frees() {
    let mut cache = RasterCache::new(250);
    let pinned: Vec<u64> = Vec::new();
    cache.insert(0, record(1, 100), &pinned);
    cache.insert(1, record(2, 100), &pinned);
    assert!(cache.get(0, (10, 10)).is_some());
    let freed = cache.insert(2, record(3, 100), &pinned);
    assert_eq!(freed, vec![2], "node 1 was the least recently used");
    assert!(cache.peek(1).is_none());
    assert!(cache.peek(0).is_some());
    assert_eq!(cache.bytes_resident(), 200);
}

#[test]
fn test_a_pinned_raster_is_never_evicted_even_over_budget() {
    let mut cache = RasterCache::new(150);
    let pinned: Vec<u64> = vec![0, 1];
    cache.insert(0, record(1, 100), &pinned);
    let freed = cache.insert(1, record(2, 100), &pinned);
    assert!(freed.is_empty(), "a placed box must not lose its raster");
    assert_eq!(cache.bytes_resident(), 200, "over budget, deliberately");
    assert_eq!(cache.len(), 2);
}

#[test]
fn test_re_inserting_a_node_replaces_its_bytes_instead_of_adding_them() {
    let mut cache = RasterCache::new(10_000);
    let pinned: Vec<u64> = Vec::new();
    cache.insert(0, record(1, 100), &pinned);
    cache.insert(0, record(1, 700), &pinned);
    assert_eq!(cache.len(), 1);
    assert_eq!(cache.bytes_resident(), 700);
}

#[test]
fn test_a_cache_hit_requires_the_same_render_target() {
    let mut cache = RasterCache::new(10_000);
    cache.insert(0, record(1, 100), &[]);
    assert!(cache.get(0, (10, 10)).is_some());
    assert!(cache.get(0, (20, 10)).is_none(), "a raster rendered for another target is not a hit");
    assert!(cache.peek(0).is_some(), "...and the miss must not drop it: the caller is about to replace it");
}

#[test]
fn test_removing_a_node_returns_its_id_and_refunds_its_bytes() {
    let mut cache = RasterCache::new(10_000);
    cache.insert(0, record(7, 100), &[]);
    assert_eq!(cache.remove(0), Some(7));
    assert_eq!(cache.bytes_resident(), 0);
    assert_eq!(cache.remove(0), None);
}

#[test]
fn residents_are_listed_least_recently_used_first() {
    let mut cache = RasterCache::new(10_000);
    cache.insert(5, record(1, 1), &[]);
    cache.insert(6, record(2, 1), &[]);
    cache.get(5, (10, 10));
    assert_eq!(cache.resident_nodes(), vec![6, 5]);
    assert!(cache.holds_id(2));
    assert!(!cache.holds_id(9));
}

#[test]
fn media_modes_are_distinct() {
    assert_ne!(MediaMode::Full, MediaMode::TextOnly);
    assert_ne!(MediaMode::TextOnly, MediaMode::Suppressed);
}

#[test]
fn only_ghostty_outside_tmux_gets_the_full_ladder_and_no_images_wins() {
    assert_eq!(MediaMode::select(false, false, true), MediaMode::Full);
    assert_eq!(MediaMode::select(false, true, true), MediaMode::TextOnly);
    assert_eq!(MediaMode::select(false, false, false), MediaMode::TextOnly);
    assert_eq!(MediaMode::select(true, false, true), MediaMode::Suppressed);
    assert_eq!(MediaMode::select(true, true, false), MediaMode::Suppressed);
}
