use ipbeeldbuis::cache::{
    cache_file_name, epg_cache_file_name, epg_cache_stale, guide_url, needs_refresh, needs_refresh_at, pick_index,
    playlist_entry_from_input, url_hash, AddPlaylistError, PlaylistEntry,
};

// ── url_hash ─────────────────────────────────────────────────────────────

#[test]
fn url_hash_is_deterministic() {
    let url = "http://example.com/playlist.m3u";
    assert_eq!(url_hash(url), url_hash(url));
}

#[test]
fn url_hash_differs_for_different_urls() {
    let a = url_hash("http://example.com/a.m3u");
    let b = url_hash("http://example.com/b.m3u");
    assert_ne!(a, b);
}

#[test]
fn url_hash_differs_for_http_vs_https() {
    let a = url_hash("http://example.com/playlist.m3u");
    let b = url_hash("https://example.com/playlist.m3u");
    assert_ne!(a, b);
}

// ── needs_refresh ────────────────────────────────────────────────────────

fn entry_with_last_fetched(last_fetched: u64) -> PlaylistEntry {
    PlaylistEntry {
        name: "test".to_string(),
        url: "http://example.com/test.m3u".to_string(),
        last_fetched,
        epg_url: None,
    }
}

fn now_secs() -> u64 {
    std::time::SystemTime::now()
        .duration_since(std::time::UNIX_EPOCH)
        .unwrap()
        .as_secs()
}

#[test]
fn needs_refresh_returns_true_for_never_fetched() {
    let entry = entry_with_last_fetched(0);
    assert!(needs_refresh(&entry));
}

#[test]
fn needs_refresh_returns_true_for_old_timestamp() {
    // 10 days ago
    let now = now_secs();
    let ten_days_ago = now.saturating_sub(10 * 24 * 3600);
    let entry = entry_with_last_fetched(ten_days_ago);
    assert!(needs_refresh(&entry));
}

#[test]
fn needs_refresh_returns_false_for_recent_timestamp() {
    // 1 hour ago
    let now = now_secs();
    let one_hour_ago = now.saturating_sub(3600);
    let entry = entry_with_last_fetched(one_hour_ago);
    assert!(!needs_refresh(&entry));
}

#[test]
fn needs_refresh_returns_false_for_two_days_ago() {
    let now = now_secs();
    let two_days_ago = now.saturating_sub(2 * 24 * 3600);
    let entry = entry_with_last_fetched(two_days_ago);
    assert!(!needs_refresh(&entry));
}

#[test]
fn needs_refresh_returns_true_for_just_over_three_days() {
    let now = now_secs();
    // 3 days + 1 second
    let just_over = now.saturating_sub(3 * 24 * 3600 + 1);
    let entry = entry_with_last_fetched(just_over);
    assert!(needs_refresh(&entry));
}

// ── further cases ────────────────────────────────────────────────────────

#[test]
fn needs_refresh_at_boundaries() {
    let entry = entry_with_last_fetched(1000);
    assert!(!needs_refresh_at(&entry, 1000 + 259200));
    assert!(needs_refresh_at(&entry, 1000 + 259201));
    assert!(!needs_refresh_at(&entry, 0));
}

#[test]
fn staleness_grows_with_time() {
    let entry = entry_with_last_fetched(5);
    assert!(needs_refresh_at(&entry, 300000));
    assert!(needs_refresh_at(&entry, 400000));
}

#[test]
fn cache_file_names_use_hex_hash() {
    let url = "http://example.com/p.m3u";
    let h = url_hash(url);
    assert_eq!(cache_file_name(url), format!("{:016x}.m3u", h));
    assert_eq!(epg_cache_file_name(url), format!("epg_{:016x}.xml", h));
    assert_eq!(cache_file_name(url).len(), 20);
}

#[test]
fn entry_from_input_takes_last_segment() {
    let e = playlist_entry_from_input("  http://example.com/lists/tv.m3u \n").unwrap();
    assert_eq!(e.url, "http://example.com/lists/tv.m3u");
    assert_eq!(e.name, "tv.m3u");
    assert_eq!(e.last_fetched, 0);
}

#[test]
fn entry_from_input_trailing_slash_uses_url() {
    let e = playlist_entry_from_input("http://example.com/\n").unwrap();
    assert_eq!(e.name, "http://example.com/");
}

#[test]
fn entry_from_input_without_slash() {
    let e = playlist_entry_from_input("playlist").unwrap();
    assert_eq!(e.name, "playlist");
}

#[test]
fn entry_from_input_empty_is_error() {
    assert_eq!(playlist_entry_from_input("   \n").unwrap_err(), AddPlaylistError::NoUrl);
}

#[test]
fn pick_index_parses_choice() {
    assert_eq!(pick_index("2\n", 3), 1);
    assert_eq!(pick_index(" +3 ", 3), 2);
    assert_eq!(pick_index("1", 3), 0);
}

#[test]
fn pick_index_clamps_and_defaults() {
    assert_eq!(pick_index("9", 3), 2);
    assert_eq!(pick_index("0", 3), 0);
    assert_eq!(pick_index("abc", 3), 0);
    assert_eq!(pick_index("", 3), 0);
    assert_eq!(pick_index("-2", 3), 0);
    assert_eq!(pick_index("99999999999999999999999", 3), 0);
}

#[test]
fn guide_url_prefers_the_playlists_own() {
    let content = "#EXTM3U url-tvg=\"http://header/epg.xml\"\n#EXTINF:-1,A\nhttp://a\n";
    let mut entry = entry_with_last_fetched(0);
    assert_eq!(guide_url(&entry, content).as_deref(), Some("http://header/epg.xml"));
    entry.epg_url = Some("http://mine/epg.xml".to_string());
    assert_eq!(guide_url(&entry, content).as_deref(), Some("http://mine/epg.xml"));
    entry.epg_url = None;
    assert_eq!(guide_url(&entry, "#EXTINF:-1,A\nhttp://a\n"), None);
}

#[test]
fn added_playlist_has_no_guide_address() {
    let e = playlist_entry_from_input("http://x/y.m3u").unwrap();
    assert_eq!(e.epg_url, None);
}

#[test]
fn guide_cache_is_stale_after_an_hour_or_when_unknown() {
    assert!(epg_cache_stale(None));
    assert!(!epg_cache_stale(Some(0)));
    assert!(!epg_cache_stale(Some(3600)));
    assert!(epg_cache_stale(Some(3601)));
}
