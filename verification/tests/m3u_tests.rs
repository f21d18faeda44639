use ipbeeldbuis::m3u::{
    extract_attr, extract_display_name, infer_content_type, is_remote_source, parse, parse_epg_url, Channel,
    ContentType,
};

fn make_channel(name: &str, url: &str, group: &str) -> Channel {
    Channel {
        name: name.to_string(),
        url: url.to_string(),
        group: group.to_string(),
        logo: None,
        tvg_id: None,
        content_type: ContentType::Live,
    }
}

// ── parse ────────────────────────────────────────────────────────────────

#[test]
fn parse_empty_returns_empty() {
    assert!(parse("").is_empty());
}

#[test]
fn parse_header_only_returns_empty() {
    assert!(parse("#EXTM3U\n").is_empty());
}

#[test]
fn parse_single_channel_all_attributes() {
    let m3u = "#EXTM3U\n#EXTINF:-1 tvg-id=\"ch1\" tvg-logo=\"http://logo.example.com/img.png\" group-title=\"News\",Channel 1\nhttp://stream.example.com/ch1\n";
    let channels = parse(m3u);
    assert_eq!(channels.len(), 1);
    let ch = &channels[0];
    assert_eq!(ch.name, "Channel 1");
    assert_eq!(ch.url, "http://stream.example.com/ch1");
    assert_eq!(ch.group, "News");
    assert_eq!(ch.logo, Some("http://logo.example.com/img.png".to_string()));
    assert_eq!(ch.tvg_id, Some("ch1".to_string()));
    assert_eq!(ch.content_type, ContentType::Live);
}

#[test]
fn parse_multiple_channels() {
    let m3u = "#EXTM3U\n#EXTINF:-1,Alpha\nhttp://example.com/1\n#EXTINF:-1,Beta\nhttp://example.com/2\n";
    let channels = parse(m3u);
    assert_eq!(channels.len(), 2);
    assert_eq!(channels[0].name, "Alpha");
    assert_eq!(channels[0].url, "http://example.com/1");
    assert_eq!(channels[1].name, "Beta");
    assert_eq!(channels[1].url, "http://example.com/2");
}

#[test]
fn parse_skips_channel_with_no_url() {
    let m3u = "#EXTM3U\n#EXTINF:-1,Channel 1\n";
    assert!(parse(m3u).is_empty());
}

#[test]
fn parse_skips_comment_between_extinf_and_url() {
    let m3u = "#EXTM3U\n#EXTINF:-1,Channel 1\n# this is a comment\nhttp://example.com/1\n";
    let channels = parse(m3u);
    assert_eq!(channels.len(), 1);
    assert_eq!(channels[0].url, "http://example.com/1");
}

#[test]
fn parse_skips_blank_lines_between_extinf_and_url() {
    let m3u = "#EXTM3U\n#EXTINF:-1,Channel 1\n\n\nhttp://example.com/1\n";
    let channels = parse(m3u);
    assert_eq!(channels.len(), 1);
    assert_eq!(channels[0].url, "http://example.com/1");
}

#[test]
fn parse_attributes_are_case_insensitive() {
    let m3u = "#EXTM3U\n#EXTINF:-1 TVG-ID=\"id1\" TVG-LOGO=\"http://logo.example.com/\" GROUP-TITLE=\"Sports\",Chan\nhttp://example.com/1\n";
    let channels = parse(m3u);
    assert_eq!(channels.len(), 1);
    assert_eq!(channels[0].tvg_id, Some("id1".to_string()));
    assert_eq!(
        channels[0].logo,
        Some("http://logo.example.com/".to_string())
    );
    assert_eq!(channels[0].group, "Sports");
}

#[test]
fn parse_name_is_text_after_last_comma() {
    let m3u = "#EXTM3U\n#EXTINF:-1 group-title=\"A,B\",My Channel, HD\nhttp://example.com/1\n";
    let channels = parse(m3u);
    assert_eq!(channels[0].name, "HD");
}

#[test]
fn parse_name_is_unknown_when_no_comma() {
    let m3u = "#EXTM3U\n#EXTINF:-1\nhttp://example.com/1\n";
    let channels = parse(m3u);
    assert_eq!(channels[0].name, "Unknown");
}

#[test]
fn parse_missing_optional_attrs_are_none() {
    let m3u = "#EXTM3U\n#EXTINF:-1,Channel\nhttp://example.com/1\n";
    let channels = parse(m3u);
    assert_eq!(channels[0].logo, None);
    assert_eq!(channels[0].tvg_id, None);
}

// ── infer_content_type ───────────────────────────────────────────────────

#[test]
fn infer_series_keywords() {
    for kw in &["serie", "Series", "SEASON", "Episode", "show", "tvshow"] {
        assert_eq!(
            infer_content_type(kw),
            ContentType::Series,
            "expected Series for {kw}"
        );
    }
}

#[test]
fn infer_movie_keywords() {
    for kw in &["movie", "Movies", "FILM", "VOD", "Cinema", "4K Movie"] {
        assert_eq!(
            infer_content_type(kw),
            ContentType::Movie,
            "expected Movie for {kw}"
        );
    }
}

#[test]
fn infer_live_is_default() {
    for kw in &["Sports", "News", "Entertainment", "Kids", ""] {
        assert_eq!(
            infer_content_type(kw),
            ContentType::Live,
            "expected Live for {kw}"
        );
    }
}

// ── extract_display_name ─────────────────────────────────────────────────

#[test]
fn extract_display_name_after_last_comma() {
    assert_eq!(
        extract_display_name("#EXTINF:-1 group-title=\"x\",My Channel"),
        "My Channel"
    );
}

#[test]
fn extract_display_name_trims_whitespace() {
    assert_eq!(extract_display_name("#EXTINF:-1,  Channel  "), "Channel");
}

#[test]
fn extract_display_name_no_comma_gives_unknown() {
    assert_eq!(extract_display_name("#EXTINF:-1"), "Unknown");
}

// ── extract_attr ─────────────────────────────────────────────────────────

#[test]
fn extract_attr_finds_value() {
    assert_eq!(
        extract_attr(r#"#EXTINF:-1 group-title="News","#, "group-title"),
        Some("News".to_string())
    );
}

#[test]
fn extract_attr_case_insensitive_key() {
    assert_eq!(
        extract_attr(r#"#EXTINF:-1 GROUP-TITLE="Sports","#, "group-title"),
        Some("Sports".to_string())
    );
}

#[test]
fn extract_attr_returns_none_when_missing() {
    assert_eq!(extract_attr("#EXTINF:-1,Channel", "tvg-id"), None);
}

#[test]
fn extract_attr_returns_none_for_empty_value() {
    assert_eq!(extract_attr(r#"#EXTINF:-1 tvg-id="","#, "tvg-id"), None);
}

#[test]
fn extract_attr_handles_unicode_in_values() {
    assert_eq!(
        extract_attr(r#"#EXTINF:-1 group-title="Téléfilm","#, "group-title"),
        Some("Téléfilm".to_string())
    );
}

// ── Channel::display_group ───────────────────────────────────────────────

#[test]
fn display_group_empty_returns_uncategorized() {
    let ch = make_channel("Test", "http://x.com", "");
    assert_eq!(ch.display_group(), "Uncategorized");
}

#[test]
fn display_group_nonempty_returns_group() {
    let ch = make_channel("Test", "http://x.com", "Sports");
    assert_eq!(ch.display_group(), "Sports");
}

// ── further cases ────────────────────────────────────────────────────────

#[test]
fn parse_handles_crlf_and_indented_lines() {
    let m3u = "#EXTM3U\r\n  #EXTINF:-1 group-title=\"Film Club\",  Movie Night \r\n   http://example.com/m  \r\n";
    let channels = parse(m3u);
    assert_eq!(channels.len(), 1);
    assert_eq!(channels[0].name, "Movie Night");
    assert_eq!(channels[0].url, "http://example.com/m");
    assert_eq!(channels[0].group, "Film Club");
    assert_eq!(channels[0].content_type, ContentType::Movie);
}

#[test]
fn parse_second_extinf_is_skipped_as_comment() {
    let m3u = "#EXTINF:-1,First\n#EXTINF:-1,Second\nhttp://example.com/1\nhttp://example.com/2\n";
    let channels = parse(m3u);
    assert_eq!(channels.len(), 1);
    assert_eq!(channels[0].name, "First");
    assert_eq!(channels[0].url, "http://example.com/1");
}

#[test]
fn parse_series_group_sets_content_type() {
    let m3u = "#EXTINF:-1 group-title=\"US SERIES\",Show\nhttp://example.com/s\n";
    let channels = parse(m3u);
    assert_eq!(channels[0].content_type, ContentType::Series);
}

#[test]
fn extract_attr_without_closing_quote_is_none() {
    assert_eq!(extract_attr("#EXTINF:-1 tvg-id=\"abc", "tvg-id"), None);
}

#[test]
fn extract_attr_trims_value() {
    assert_eq!(
        extract_attr("#EXTINF:-1 tvg-logo=\"  http://l/  \",x", "tvg-logo"),
        Some("http://l/".to_string())
    );
}

#[test]
fn extract_attr_uses_first_occurrence() {
    assert_eq!(
        extract_attr("#EXTINF:-1 tvg-id=\"a\" TVG-ID=\"b\",x", "tvg-id"),
        Some("a".to_string())
    );
}

#[test]
fn parse_epg_url_reads_header() {
    let m3u = "#EXTM3U url-tvg=\"http://epg.example.com/guide.xml\"\n#EXTINF:-1,A\nhttp://a\n";
    assert_eq!(
        parse_epg_url(m3u),
        Some("http://epg.example.com/guide.xml".to_string())
    );
}

#[test]
fn parse_epg_url_absent() {
    assert_eq!(parse_epg_url("#EXTM3U\n#EXTINF:-1,A\nhttp://a\n"), None);
    assert_eq!(parse_epg_url(""), None);
}

#[test]
fn duplicate_keeps_view() {
    let ch = make_channel("Test", "http://x.com", "Sports");
    let copy = ch.duplicate();
    assert_eq!(copy.name, "Test");
    assert_eq!(copy.url, "http://x.com");
    assert_eq!(copy.group, "Sports");
}

#[test]
fn remote_sources_are_http_addresses() {
    assert!(is_remote_source("http://example.com/list.m3u"));
    assert!(is_remote_source("https://example.com/list.m3u"));
    assert!(!is_remote_source("HTTP://example.com/list.m3u"));
    assert!(!is_remote_source("/home/me/list.m3u"));
    assert!(!is_remote_source("ftp://example.com/list.m3u"));
}

#[test]
fn joined_playlists_parse_to_joined_channels() {
    let a = "#EXTM3U\n#EXTINF:-1,One\nhttp://one\n";
    let b = "#EXTINF:-1 group-title=\"News\",Two\nhttp://two\n#EXTINF:-1,Three\nhttp://three\n";
    let joined = parse(&format!("{a}{b}"));
    let names: Vec<String> = joined.iter().map(|c| c.name.clone()).collect();
    let mut expected: Vec<String> = parse(a).iter().map(|c| c.name.clone()).collect();
    expected.extend(parse(b).iter().map(|c| c.name.clone()));
    assert_eq!(names, expected);
    assert_eq!(names, vec!["One", "Two", "Three"]);
    assert_eq!(joined[1].group, "News");
}
