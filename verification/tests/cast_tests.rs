use ipbeeldbuis::ui::{KeyCode, KeyModifiers, KeyPress};
use ipbeeldbuis::chromecast::{
    cast_control_step, cast_step, control_choice, casting_status, collect_devices, format_from_content_type,
    format_from_url, CastCommand, CastControlAction, CastStep, FoundService, StreamFormat,
};

fn found(name: Option<&str>, addr: Option<&str>, port: u16) -> FoundService {
    FoundService { name: name.map(String::from), addr: addr.map(String::from), port }
}

#[test]
fn url_with_m3u8_is_hls() {
    assert_eq!(format_from_url("http://x.example/live/playlist.m3u8?token=1"), Some(StreamFormat::Hls));
    assert_eq!(format_from_url("http://x.example/LIVE.M3U8"), Some(StreamFormat::Hls));
}

#[test]
fn url_with_hls_path_is_hls() {
    assert_eq!(format_from_url("http://x.example/HLS/stream"), Some(StreamFormat::Hls));
}

#[test]
fn url_ending_in_ts_is_mpeg_ts() {
    assert_eq!(format_from_url("http://x.example/1234.TS"), Some(StreamFormat::MpegTs));
    assert_eq!(format_from_url("http://x.example/mpeg-ts/7"), Some(StreamFormat::MpegTs));
}

#[test]
fn url_without_hint_is_undecided() {
    assert_eq!(format_from_url("http://x.example/live/1234"), None);
    assert_eq!(format_from_url("http://x.example/a.ts/more"), None);
}

#[test]
fn content_types_are_recognised() {
    assert_eq!(format_from_content_type("application/vnd.apple.mpegurl"), StreamFormat::Hls);
    assert_eq!(format_from_content_type("Application/X-MPEGURL"), StreamFormat::Hls);
    assert_eq!(format_from_content_type("video/MP2T"), StreamFormat::MpegTs);
    assert_eq!(format_from_content_type("video/mpegts"), StreamFormat::MpegTs);
    assert_eq!(format_from_content_type("text/html"), StreamFormat::Unknown);
}

#[test]
fn devices_are_named_deduplicated_and_sorted() {
    let ds = collect_devices(vec![
        found(Some("Living Room"), Some("10.0.0.2"), 8009),
        found(None, Some("10.0.0.3"), 8010),
        found(Some("Bedroom"), None, 8009),
        found(Some("Living Room again"), Some("10.0.0.2"), 8009),
        found(Some("Attic"), Some("10.0.0.4"), 8009),
    ]);
    let names: Vec<&str> = ds.iter().map(|d| d.name.as_str()).collect();
    assert_eq!(names, vec!["Attic", "Living Room", "Unknown Chromecast"]);
    assert_eq!(ds[1].addr, "10.0.0.2");
    assert_eq!(ds[2].port, 8010);
}

#[test]
fn devices_with_equal_names_keep_discovery_order() {
    let ds = collect_devices(vec![
        found(Some("TV"), Some("10.0.0.9"), 1),
        found(Some("TV"), Some("10.0.0.1"), 2),
    ]);
    assert_eq!(ds.len(), 2);
    assert_eq!(ds[0].addr, "10.0.0.9");
    assert_eq!(ds[1].addr, "10.0.0.1");
}

#[test]
fn no_services_no_devices() {
    assert!(collect_devices(Vec::new()).is_empty());
}

#[test]
fn cast_step_decisions() {
    assert_eq!(cast_step(0, StreamFormat::Hls), CastStep::NoDevices);
    assert_eq!(cast_step(2, StreamFormat::MpegTs), CastStep::Unsupported);
    assert_eq!(cast_step(1, StreamFormat::Hls), CastStep::PickDevice);
    assert_eq!(cast_step(1, StreamFormat::Unknown), CastStep::PickDevice);
}

#[test]
fn casting_status_names_the_channel() {
    assert_eq!(casting_status("BBC One"), "Casting: BBC One");
}

#[test]
fn cast_control_without_session_does_nothing() {
    assert_eq!(cast_control_step(false, CastControlAction::Stop), (None, false));
    assert_eq!(cast_control_step(false, CastControlAction::Pause), (None, false));
}

#[test]
fn cast_control_choices() {
    assert_eq!(cast_control_step(true, CastControlAction::Pause), (Some(CastCommand::Pause), false));
    assert_eq!(cast_control_step(true, CastControlAction::Resume), (Some(CastCommand::Resume), false));
    assert_eq!(cast_control_step(true, CastControlAction::Stop), (Some(CastCommand::Stop), true));
    assert_eq!(cast_control_step(true, CastControlAction::Cancel), (None, false));
}

fn key(c: char, control: bool) -> KeyPress {
    KeyPress { code: KeyCode::Char(c), modifiers: KeyModifiers { control, shift: false, other: false } }
}

#[test]
fn control_popup_keys() {
    assert_eq!(control_choice(key('p', false)), Some(CastControlAction::Pause));
    assert_eq!(control_choice(key('r', false)), Some(CastControlAction::Resume));
    assert_eq!(control_choice(key('s', false)), Some(CastControlAction::Stop));
    assert_eq!(control_choice(key('q', false)), Some(CastControlAction::Cancel));
    assert_eq!(control_choice(key('c', true)), Some(CastControlAction::Cancel));
    assert_eq!(control_choice(key('x', false)), None);
    let esc = KeyPress { code: KeyCode::Esc, modifiers: KeyModifiers { control: false, shift: false, other: false } };
    assert_eq!(control_choice(esc), Some(CastControlAction::Cancel));
}
