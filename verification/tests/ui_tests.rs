use ipbeeldbuis::cache::PlaylistEntry;
use ipbeeldbuis::m3u::{Channel, ContentType};
use ipbeeldbuis::ui::{
    pick_step, truncate, Action, AppState, ContentFilter, KeyCode, KeyModifiers, KeyPress,
    PickStep, SettingsState,
};

fn make_channel(name: &str, group: &str, ct: ContentType) -> Channel {
    Channel {
        name: name.to_string(),
        url: format!("http://example.com/{name}"),
        group: group.to_string(),
        logo: None,
        tvg_id: None,
        content_type: ct,
    }
}

fn sample_channels() -> Vec<Channel> {
    vec![
        make_channel("CNN", "News", ContentType::Live),
        make_channel("BBC News", "News", ContentType::Live),
        make_channel("Inception", "Movies", ContentType::Movie),
        make_channel("Breaking Bad S01E01", "US Series", ContentType::Series),
        make_channel("ESPN", "Sports", ContentType::Live),
    ]
}

// ── ContentFilter ────────────────────────────────────────────────────────

#[test]
fn content_filter_labels() {
    assert_eq!(ContentFilter::All.label(), "All");
    assert_eq!(ContentFilter::Live.label(), "Live Channels");
    assert_eq!(ContentFilter::Movie.label(), "Movies");
    assert_eq!(ContentFilter::Series.label(), "Series");
}

#[test]
fn content_filter_next_cycles_all_variants() {
    assert_eq!(ContentFilter::All.next(), ContentFilter::Live);
    assert_eq!(ContentFilter::Live.next(), ContentFilter::Movie);
    assert_eq!(ContentFilter::Movie.next(), ContentFilter::Series);
    assert_eq!(ContentFilter::Series.next(), ContentFilter::All);
}

#[test]
fn content_filter_matches_all_accepts_any() {
    assert!(ContentFilter::All.matches(&ContentType::Live));
    assert!(ContentFilter::All.matches(&ContentType::Movie));
    assert!(ContentFilter::All.matches(&ContentType::Series));
}

#[test]
fn content_filter_matches_live_only() {
    assert!(ContentFilter::Live.matches(&ContentType::Live));
    assert!(!ContentFilter::Live.matches(&ContentType::Movie));
    assert!(!ContentFilter::Live.matches(&ContentType::Series));
}

#[test]
fn content_filter_matches_movie_only() {
    assert!(ContentFilter::Movie.matches(&ContentType::Movie));
    assert!(!ContentFilter::Movie.matches(&ContentType::Live));
    assert!(!ContentFilter::Movie.matches(&ContentType::Series));
}

#[test]
fn content_filter_matches_series_only() {
    assert!(ContentFilter::Series.matches(&ContentType::Series));
    assert!(!ContentFilter::Series.matches(&ContentType::Live));
    assert!(!ContentFilter::Series.matches(&ContentType::Movie));
}

// ── AppState::new ────────────────────────────────────────────────────────

#[test]
fn app_state_new_empty_channels() {
    let channels: Vec<Channel> = vec![];
    let app = AppState::new(&channels);
    assert_eq!(app.filtered.len(), 0);
    // groups should at least contain "All"
    assert!(app.groups.contains(&"All".to_string()));
}

#[test]
fn app_state_new_with_channels_selects_first() {
    let channels = sample_channels();
    let app = AppState::new(&channels);
    assert_eq!(app.filtered.len(), channels.len());
    assert_eq!(app.list_state.selected(), Some(0));
}

#[test]
fn app_state_new_builds_groups_from_channels() {
    let channels = sample_channels();
    let app = AppState::new(&channels);
    // "All" + unique groups
    assert!(app.groups.contains(&"All".to_string()));
    assert!(app.groups.contains(&"News".to_string()));
    assert!(app.groups.contains(&"Movies".to_string()));
    assert!(app.groups.contains(&"US Series".to_string()));
    assert!(app.groups.contains(&"Sports".to_string()));
}

// ── AppState navigation ──────────────────────────────────────────────────

#[test]
fn app_state_next_advances_selection() {
    let channels = sample_channels();
    let mut app = AppState::new(&channels);
    app.next();
    assert_eq!(app.list_state.selected(), Some(1));
}

#[test]
fn app_state_next_stops_at_last_item() {
    let channels = sample_channels();
    let mut app = AppState::new(&channels);
    for _ in 0..100 {
        app.next();
    }
    assert_eq!(app.list_state.selected(), Some(channels.len() - 1));
}

#[test]
fn app_state_prev_stops_at_zero() {
    let channels = sample_channels();
    let mut app = AppState::new(&channels);
    app.prev();
    assert_eq!(app.list_state.selected(), Some(0));
}

#[test]
fn app_state_prev_goes_back() {
    let channels = sample_channels();
    let mut app = AppState::new(&channels);
    app.next();
    app.next();
    app.prev();
    assert_eq!(app.list_state.selected(), Some(1));
}

#[test]
fn app_state_next_on_empty_list_does_nothing() {
    let channels: Vec<Channel> = vec![];
    let mut app = AppState::new(&channels);
    app.next(); // should not panic
    assert_eq!(app.list_state.selected(), None);
}

#[test]
fn app_state_prev_on_empty_list_does_nothing() {
    let channels: Vec<Channel> = vec![];
    let mut app = AppState::new(&channels);
    app.prev(); // should not panic
    assert_eq!(app.list_state.selected(), None);
}

// ── Group navigation ─────────────────────────────────────────────────────

#[test]
fn app_state_next_group_advances() {
    let channels = sample_channels();
    let mut app = AppState::new(&channels);
    assert_eq!(app.group_idx, 0); // starts at "All"
    app.next_group();
    assert_eq!(app.group_idx, 1);
}

#[test]
fn app_state_next_group_wraps_around() {
    let channels = sample_channels();
    let mut app = AppState::new(&channels);
    let total_groups = app.groups.len();
    for _ in 0..total_groups {
        app.next_group();
    }
    assert_eq!(app.group_idx, 0);
}

#[test]
fn app_state_prev_group_wraps_around() {
    let channels = sample_channels();
    let mut app = AppState::new(&channels);
    app.prev_group();
    assert_eq!(app.group_idx, app.groups.len() - 1);
}

#[test]
fn app_state_group_filter_restricts_channels() {
    let channels = sample_channels();
    let mut app = AppState::new(&channels);
    // Navigate to the "News" group
    let news_idx = app
        .groups
        .iter()
        .position(|g| g == "News")
        .expect("News group should exist");
    app.group_idx = news_idx;
    app.refresh_filter();
    // Only CNN and BBC News are in "News"
    assert_eq!(app.filtered.len(), 2);
    let names: Vec<&str> = app
        .filtered
        .iter()
        .map(|&i| channels[i].name.as_str())
        .collect();
    assert!(names.contains(&"CNN"));
    assert!(names.contains(&"BBC News"));
}

// ── Search filtering ─────────────────────────────────────────────────────

#[test]
fn app_state_search_filters_by_name() {
    let channels = sample_channels();
    let mut app = AppState::new(&channels);
    app.search = "bbc".to_string();
    app.refresh_filter();
    assert_eq!(app.filtered.len(), 1);
    assert_eq!(channels[app.filtered[0]].name, "BBC News");
}

#[test]
fn app_state_search_filters_by_group() {
    let channels = sample_channels();
    let mut app = AppState::new(&channels);
    app.search = "news".to_string();
    app.refresh_filter();
    // CNN, BBC News (group "News"), and "BBC News" (name contains news)
    // Both channels in the "News" group match, plus ESPN doesn't match
    let names: Vec<&str> = app
        .filtered
        .iter()
        .map(|&i| channels[i].name.as_str())
        .collect();
    assert!(names.contains(&"CNN"));
    assert!(names.contains(&"BBC News"));
}

#[test]
fn app_state_search_empty_shows_all() {
    let channels = sample_channels();
    let mut app = AppState::new(&channels);
    app.search = String::new();
    app.refresh_filter();
    assert_eq!(app.filtered.len(), channels.len());
}

#[test]
fn app_state_search_no_match_gives_empty_selection() {
    let channels = sample_channels();
    let mut app = AppState::new(&channels);
    app.search = "zzznomatch".to_string();
    app.refresh_filter();
    assert!(app.filtered.is_empty());
    assert_eq!(app.list_state.selected(), None);
}

// ── Content filter cycling ───────────────────────────────────────────────

#[test]
fn cycle_content_filter_changes_filter() {
    let channels = sample_channels();
    let mut app = AppState::new(&channels);
    assert_eq!(app.content_filter, ContentFilter::All);
    app.cycle_content_filter();
    assert_eq!(app.content_filter, ContentFilter::Live);
}

#[test]
fn cycle_content_filter_restricts_channels() {
    let channels = sample_channels();
    let mut app = AppState::new(&channels);
    // Skip to Movie filter
    app.cycle_content_filter(); // Live
    app.cycle_content_filter(); // Movie
    assert_eq!(app.content_filter, ContentFilter::Movie);
    assert_eq!(app.filtered.len(), 1);
    assert_eq!(channels[app.filtered[0]].name, "Inception");
}

#[test]
fn cycle_content_filter_clears_search() {
    let channels = sample_channels();
    let mut app = AppState::new(&channels);
    app.search = "cnn".to_string();
    app.search_mode = true;
    app.cycle_content_filter();
    assert!(app.search.is_empty());
    assert!(!app.search_mode);
}

// ── selected_channel ─────────────────────────────────────────────────────

#[test]
fn selected_channel_returns_correct_channel() {
    let channels = sample_channels();
    let app = AppState::new(&channels);
    let selected = app.selected_channel().unwrap();
    assert_eq!(selected.name, channels[0].name);
}

#[test]
fn selected_channel_returns_none_when_empty() {
    let channels: Vec<Channel> = vec![];
    let app = AppState::new(&channels);
    assert!(app.selected_channel().is_none());
}

// ── truncate ─────────────────────────────────────────────────────────────

#[test]
fn truncate_short_string_unchanged() {
    assert_eq!(truncate("hello", 10), "hello");
}

#[test]
fn truncate_exact_length_unchanged() {
    assert_eq!(truncate("hello", 5), "hello");
}

#[test]
fn truncate_long_string_gets_ellipsis() {
    let result = truncate("hello world", 5);
    assert!(result.ends_with('…'));
    assert!(result.chars().count() <= 6); // 5 chars + ellipsis
}

#[test]
fn truncate_empty_string() {
    assert_eq!(truncate("", 5), "");
}

#[test]
fn truncate_handles_unicode() {
    // "héllo" is 5 chars
    let result = truncate("héllo world", 5);
    assert!(result.ends_with('…'));
}

// ── further cases ────────────────────────────────────────────────────────

fn key(code: KeyCode) -> KeyPress {
    KeyPress { code, modifiers: KeyModifiers { control: false, shift: false, other: false } }
}

fn ctrl(code: KeyCode) -> KeyPress {
    KeyPress { code, modifiers: KeyModifiers { control: true, shift: false, other: false } }
}

#[test]
fn truncate_exact_result() {
    assert_eq!(truncate("hello world", 5), "hell…");
    assert_eq!(truncate("héllo world", 3), "hé…");
    assert_eq!(truncate("abc", 0), "…");
}

#[test]
fn groups_are_in_first_appearance_order() {
    let channels = sample_channels();
    let app = AppState::new(&channels);
    assert_eq!(app.groups, vec!["All", "News", "Movies", "US Series", "Sports"]);
}

#[test]
fn empty_group_is_listed_as_uncategorized() {
    let channels = vec![make_channel("A", "", ContentType::Live)];
    let app = AppState::new(&channels);
    assert_eq!(app.groups, vec!["All", "Uncategorized"]);
}

#[test]
fn prev_group_undoes_next_group() {
    let channels = sample_channels();
    let mut app = AppState::new(&channels);
    app.next_group();
    app.next_group();
    let before = app.filtered.clone();
    app.next_group();
    app.prev_group();
    assert_eq!(app.group_idx, 2);
    assert_eq!(app.filtered, before);
}

#[test]
fn keys_quit_and_actions() {
    let channels = sample_channels();
    let mut app = AppState::new(&channels);
    assert!(matches!(app.handle_key(key(KeyCode::Char('q'))), Some(Action::Quit)));
    assert!(matches!(app.handle_key(key(KeyCode::Esc)), Some(Action::Quit)));
    assert!(matches!(app.handle_key(ctrl(KeyCode::Char('c'))), Some(Action::Quit)));
    match app.handle_key(key(KeyCode::Char('c'))) {
        Some(Action::Cast(ch)) => assert_eq!(ch.name, "CNN"),
        _ => panic!("expected a cast request"),
    }
    assert!(matches!(app.handle_key(key(KeyCode::Char('s'))), Some(Action::OpenSettings)));
    assert!(matches!(app.handle_key(key(KeyCode::Char('a'))), Some(Action::AddPlaylist)));
}

#[test]
fn enter_plays_selected_channel() {
    let channels = sample_channels();
    let mut app = AppState::new(&channels);
    app.handle_key(key(KeyCode::Char('j')));
    match app.handle_key(key(KeyCode::Enter)) {
        Some(Action::Play(ch)) => {
            assert_eq!(ch.name, "BBC News");
            assert_eq!(ch.url, "http://example.com/BBC News");
        }
        _ => panic!("expected a channel to play"),
    }
}

#[test]
fn search_mode_types_and_deletes() {
    let channels = sample_channels();
    let mut app = AppState::new(&channels);
    app.handle_key(key(KeyCode::Char('/')));
    assert!(app.search_mode);
    app.handle_key(key(KeyCode::Char('E')));
    app.handle_key(key(KeyCode::Char('S')));
    assert_eq!(app.search, "ES");
    let names: Vec<&str> = app.filtered.iter().map(|&i| channels[i].name.as_str()).collect();
    // "es" occurs in the groups "Movies" and "US Series" and in the name "ESPN".
    assert_eq!(names, vec!["Inception", "Breaking Bad S01E01", "ESPN"]);
    app.handle_key(key(KeyCode::Backspace));
    assert_eq!(app.search, "E");
    assert!(app.handle_key(key(KeyCode::Char('q'))).is_none());
    assert_eq!(app.search, "Eq");
    app.handle_key(key(KeyCode::Esc));
    assert!(!app.search_mode);
    assert_eq!(app.search, "");
    assert_eq!(app.filtered.len(), channels.len());
}

#[test]
fn tab_keys_move_between_groups() {
    let channels = sample_channels();
    let mut app = AppState::new(&channels);
    app.handle_key(key(KeyCode::Tab));
    assert_eq!(app.group_idx, 1);
    let shift = KeyPress {
        code: KeyCode::BackTab,
        modifiers: KeyModifiers { control: false, shift: true, other: false },
    };
    app.handle_key(shift);
    assert_eq!(app.group_idx, 0);
    app.handle_key(key(KeyCode::BackTab));
    assert_eq!(app.group_idx, 0);
    app.handle_key(key(KeyCode::Char('h')));
    assert_eq!(app.group_idx, app.groups.len() - 1);
}

#[test]
fn tab_strip_scrolls_to_selected_tab() {
    let channels = sample_channels();
    let mut app = AppState::new(&channels);
    // tabs: All(5) News(6) Movies(8) US Series(11) Sports(8), each + divider
    assert_eq!(app.last_visible_tab(100), 5);
    assert_eq!(app.last_visible_tab(10), 1);
    app.group_idx = 4;
    app.adjust_tab_offset(20);
    assert!(app.tab_offset <= 4);
    assert!(4 < app.last_visible_tab(20));
    app.group_idx = 0;
    app.adjust_tab_offset(20);
    assert_eq!(app.tab_offset, 0);
}

#[test]
fn settings_keys_move_and_delete() {
    let mut playlists = vec![
        PlaylistEntry { name: "a".to_string(), url: "http://a".to_string(), last_fetched: 0, epg_url: None },
        PlaylistEntry { name: "b".to_string(), url: "http://b".to_string(), last_fetched: 0, epg_url: None },
    ];
    let mut st = SettingsState::new();
    assert!(!st.handle_key(&mut playlists, key(KeyCode::Down)));
    assert_eq!(st.selected, 1);
    assert!(!st.handle_key(&mut playlists, key(KeyCode::Down)));
    assert_eq!(st.selected, 1);
    assert!(!st.handle_key(&mut playlists, key(KeyCode::Char('d'))));
    assert_eq!(playlists.len(), 1);
    assert_eq!(playlists[0].name, "a");
    assert_eq!(st.selected, 0);
    assert!(!st.handle_key(&mut playlists, key(KeyCode::Char('d'))));
    assert!(playlists.is_empty());
    assert!(!st.handle_key(&mut playlists, key(KeyCode::Char('d'))));
    assert!(st.handle_key(&mut playlists, key(KeyCode::Char('q'))));
}

#[test]
fn cast_key_on_empty_list_asks_nothing() {
    let channels: Vec<Channel> = Vec::new();
    let mut app = AppState::new(&channels);
    assert!(app.handle_key(key(KeyCode::Char('c'))).is_none());
}

#[test]
fn cast_key_casts_the_selected_channel() {
    let channels = sample_channels();
    let mut app = AppState::new(&channels);
    app.handle_key(key(KeyCode::Down));
    app.handle_key(key(KeyCode::Down));
    match app.handle_key(key(KeyCode::Char('c'))) {
        Some(Action::Cast(ch)) => assert_eq!(ch.name, "Inception"),
        _ => panic!("expected a cast request"),
    }
}

#[test]
fn guide_key_toggles_the_panel() {
    let channels = sample_channels();
    let mut app = AppState::new(&channels);
    assert!(!app.show_epg);
    assert!(app.handle_key(key(KeyCode::Char('e'))).is_none());
    assert!(app.show_epg);
    app.handle_key(key(KeyCode::Char('e')));
    assert!(!app.show_epg);
    app.handle_key(key(KeyCode::Char('/')));
    app.handle_key(key(KeyCode::Char('e')));
    assert!(!app.show_epg);
    assert_eq!(app.search, "e");
}

#[test]
fn new_browser_lists_every_channel() {
    let channels = sample_channels();
    let app = AppState::new(&channels);
    assert_eq!(app.filtered, vec![0, 1, 2, 3, 4]);
}

#[test]
fn next_and_prev_work_without_a_selection() {
    let channels = sample_channels();
    let mut app = AppState::new(&channels);
    app.list_state.select(None);
    app.next();
    assert_eq!(app.list_state.selected(), Some(1));
    app.list_state.select(None);
    app.prev();
    assert_eq!(app.list_state.selected(), Some(0));
}

#[test]
fn picker_moves_chooses_and_cancels() {
    assert_eq!(pick_step(0, 3, key(KeyCode::Down)), PickStep::At(1));
    assert_eq!(pick_step(2, 3, key(KeyCode::Char('j'))), PickStep::At(2));
    assert_eq!(pick_step(0, 3, key(KeyCode::Up)), PickStep::At(0));
    assert_eq!(pick_step(2, 3, key(KeyCode::Char('k'))), PickStep::At(1));
    assert_eq!(pick_step(1, 3, key(KeyCode::Enter)), PickStep::Chosen(1));
    assert_eq!(pick_step(0, 0, key(KeyCode::Enter)), PickStep::Cancelled);
    assert_eq!(pick_step(1, 3, key(KeyCode::Esc)), PickStep::Cancelled);
    assert_eq!(pick_step(1, 3, ctrl(KeyCode::Char('c'))), PickStep::Cancelled);
    assert_eq!(pick_step(1, 3, key(KeyCode::Char('x'))), PickStep::At(1));
}

fn playlist(name: &str, epg: Option<&str>) -> PlaylistEntry {
    PlaylistEntry {
        name: name.to_string(),
        url: format!("http://{name}"),
        last_fetched: 7,
        epg_url: epg.map(String::from),
    }
}

#[test]
fn settings_edit_guide_address() {
    let mut playlists = vec![playlist("a", None), playlist("b", Some("http://old/epg.xml"))];
    let mut st = SettingsState::new();
    st.handle_key(&mut playlists, key(KeyCode::Down));
    assert!(!st.handle_key(&mut playlists, key(KeyCode::Char('e'))));
    assert_eq!(st.editing.as_deref(), Some("http://old/epg.xml"));
    for _ in 0.."epg.xml".len() {
        st.handle_key(&mut playlists, key(KeyCode::Backspace));
    }
    for c in "guide.xml ".chars() {
        st.handle_key(&mut playlists, key(KeyCode::Char(c)));
    }
    // q is typed, not a way out, while editing
    assert!(!st.handle_key(&mut playlists, key(KeyCode::Char('q'))));
    st.handle_key(&mut playlists, key(KeyCode::Backspace));
    assert!(!st.handle_key(&mut playlists, key(KeyCode::Enter)));
    assert!(st.editing.is_none());
    assert_eq!(playlists[1].epg_url.as_deref(), Some("http://old/guide.xml"));
    assert_eq!(playlists[1].name, "b");
    assert_eq!(playlists[1].url, "http://b");
    assert_eq!(playlists[1].last_fetched, 7);
    assert_eq!(playlists[0].epg_url, None);
}

#[test]
fn settings_clear_and_cancel_guide_address() {
    let mut playlists = vec![playlist("a", Some("http://x"))];
    let mut st = SettingsState::new();
    st.handle_key(&mut playlists, key(KeyCode::Char('e')));
    st.handle_key(&mut playlists, key(KeyCode::Char('y')));
    st.handle_key(&mut playlists, key(KeyCode::Esc));
    assert!(st.editing.is_none());
    assert_eq!(playlists[0].epg_url.as_deref(), Some("http://x"));
    st.handle_key(&mut playlists, key(KeyCode::Char('e')));
    for _ in 0..8 {
        st.handle_key(&mut playlists, key(KeyCode::Backspace));
    }
    st.handle_key(&mut playlists, key(KeyCode::Char(' ')));
    st.handle_key(&mut playlists, key(KeyCode::Enter));
    assert_eq!(playlists[0].epg_url, None);
}

#[test]
fn shift_c_asks_for_cast_control() {
    let channels = sample_channels();
    let mut app = AppState::new(&channels);
    let shifted = KeyPress { code: KeyCode::Char('C'), modifiers: KeyModifiers { control: false, shift: true, other: false } };
    assert!(matches!(app.handle_key(shifted), Some(Action::CastControl)));
}
