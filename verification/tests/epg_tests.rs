use ipbeeldbuis::epg::{
    epg_from_events, now_and_next_at, EpgData, parse_xmltv, sort_programmes, EpgError,
    Programme, XmlAttr, XmlEvent,
};
use ipbeeldbuis::xmltv_time::{format_time, parse_xmltv_timestamp, parse_xmltv_timestamp_checked};

const NEW_YEAR_2024: u64 = 1704067200;

fn start_tag(name: &str, attrs: &[(&str, &str)]) -> XmlEvent {
    XmlEvent::Start {
        name: name.as_bytes().to_vec(),
        attrs: attrs
            .iter()
            .map(|(k, v)| XmlAttr { key: k.as_bytes().to_vec(), value: Some(v.to_string()) })
            .collect(),
    }
}

fn end_tag(name: &str) -> XmlEvent {
    XmlEvent::End { name: name.as_bytes().to_vec() }
}

fn text(t: &str) -> XmlEvent {
    XmlEvent::Text { raw: t.as_bytes().to_vec() }
}

fn programme_events(channel: &str, start: &str, stop: &str, title: Option<&str>) -> Vec<XmlEvent> {
    let mut v = vec![start_tag(
        "programme",
        &[("start", start), ("stop", stop), ("channel", channel)],
    )];
    if let Some(t) = title {
        v.push(start_tag("title", &[]));
        v.push(text(t));
        v.push(end_tag("title"));
    }
    v.push(end_tag("programme"));
    v
}

fn prog(title: &str, start: u64, stop: u64) -> Programme {
    Programme { title: title.to_string(), desc: None, start, stop }
}

// ─── Timestamps ──────────────────────────────────────────────────────────────

#[test]
fn timestamp_utc_new_year() {
    assert_eq!(parse_xmltv_timestamp("20240101000000 +0000"), NEW_YEAR_2024);
}

#[test]
fn timestamp_epoch_without_zone() {
    assert_eq!(parse_xmltv_timestamp("19700101000000"), 0);
}

#[test]
fn timestamp_positive_offset_is_subtracted() {
    assert_eq!(parse_xmltv_timestamp("20240101000000 +0100"), NEW_YEAR_2024 - 3600);
}

#[test]
fn timestamp_negative_offset_is_added() {
    assert_eq!(parse_xmltv_timestamp("20240101000000 -0500"), NEW_YEAR_2024 + 5 * 3600);
}

#[test]
fn timestamp_is_trimmed_and_handles_leap_year() {
    // 2024-06-15 12:30:00 at +02:00 is 10:30 UTC, 166 days into a leap year.
    assert_eq!(parse_xmltv_timestamp("  20240615123000 +0200  "), 1718447400);
}

#[test]
fn timestamp_march_first_after_leap_day() {
    assert_eq!(
        parse_xmltv_timestamp("20240301000000 +0000") - parse_xmltv_timestamp("20240228000000 +0000"),
        2 * 86400
    );
    assert_eq!(
        parse_xmltv_timestamp("20230301000000 +0000") - parse_xmltv_timestamp("20230228000000 +0000"),
        86400
    );
}

#[test]
fn timestamp_too_short_is_zero() {
    assert_eq!(parse_xmltv_timestamp("2024"), 0);
    assert_eq!(parse_xmltv_timestamp_checked(""), Some(0));
}

#[test]
fn timestamp_checked_agrees_on_valid_input() {
    assert_eq!(parse_xmltv_timestamp_checked("20240101000000 +0000"), Some(NEW_YEAR_2024));
}

#[test]
fn timestamp_checked_refuses_split_character() {
    assert_eq!(parse_xmltv_timestamp_checked("202\u{e9}0101000000 +0000"), None);
}

#[test]
fn format_time_gives_hours_and_minutes() {
    assert_eq!(format_time(NEW_YEAR_2024), "00:00");
    assert_eq!(format_time(1718447400), "10:30");
    assert_eq!(format_time(3661), "01:01");
    assert_eq!(format_time(86399), "23:59");
}

// ─── Sorting ─────────────────────────────────────────────────────────────────

#[test]
fn sort_programmes_orders_by_start_and_is_stable() {
    let sorted = sort_programmes(vec![prog("c", 30, 40), prog("a", 10, 20), prog("b", 10, 25)]);
    let titles: Vec<&str> = sorted.iter().map(|p| p.title.as_str()).collect();
    assert_eq!(titles, vec!["a", "b", "c"]);
}

// ─── Guide from events ───────────────────────────────────────────────────────

#[test]
fn events_build_sorted_guide_per_channel() {
    let mut evs = vec![start_tag("tv", &[])];
    evs.extend(programme_events("ch1", "20240101010000 +0000", "20240101020000 +0000", Some("Second")));
    evs.extend(programme_events("ch1", "20240101000000 +0000", "20240101010000 +0000", Some("First")));
    evs.extend(programme_events("ch2", "20240101000000 +0000", "20240101003000 +0000", Some("Other")));
    evs.push(end_tag("tv"));
    evs.push(XmlEvent::Eof);
    let data = epg_from_events(&evs, NEW_YEAR_2024).expect("guide");
    assert_eq!(data.len(), 2);
    assert_eq!(data.keys(), vec!["ch1".to_string(), "ch2".to_string()]);
    let ch1 = data.get("ch1").expect("ch1");
    assert_eq!(ch1.len(), 2);
    assert_eq!(ch1[0].title, "First");
    assert_eq!(ch1[0].start, NEW_YEAR_2024);
    assert_eq!(ch1[0].stop, NEW_YEAR_2024 + 3600);
    assert_eq!(ch1[1].title, "Second");
    assert!(data.get("ch3").is_none());
}

#[test]
fn events_unescape_title_and_keep_description() {
    let evs = vec![
        start_tag("programme", &[("start", "20240101000000 +0000"), ("stop", "20240101010000 +0000"), ("channel", " ch1 ")]),
        start_tag("title", &[]),
        text("News &amp; Weather"),
        end_tag("title"),
        start_tag("desc", &[]),
        text("Daily"),
        end_tag("desc"),
        end_tag("programme"),
        XmlEvent::Eof,
    ];
    let data = epg_from_events(&evs, NEW_YEAR_2024).expect("guide");
    let ps = data.get("ch1").expect("channel id is trimmed");
    assert_eq!(ps[0].title, "News & Weather");
    assert_eq!(ps[0].desc.as_deref(), Some("Daily"));
}

#[test]
fn events_drop_programme_without_title() {
    let mut evs = programme_events("ch1", "20240101000000 +0000", "20240101010000 +0000", None);
    evs.push(XmlEvent::Eof);
    let data = epg_from_events(&evs, NEW_YEAR_2024).expect("guide");
    assert_eq!(data.len(), 0);
}

#[test]
fn events_drop_programme_outside_week_window() {
    let mut evs = programme_events("ch1", "20230101000000 +0000", "20230101010000 +0000", Some("Old"));
    evs.extend(programme_events("ch1", "20240109000000 +0000", "20240109010000 +0000", Some("Too late")));
    evs.extend(programme_events("ch1", "20240107000000 +0000", "20240107010000 +0000", Some("In week")));
    evs.push(XmlEvent::Eof);
    let data = epg_from_events(&evs, NEW_YEAR_2024).expect("guide");
    let ps = data.get("ch1").expect("ch1");
    assert_eq!(ps.len(), 1);
    assert_eq!(ps[0].title, "In week");
}

#[test]
fn events_stop_at_error() {
    let mut evs = vec![XmlEvent::Error];
    evs.extend(programme_events("ch1", "20240101000000 +0000", "20240101010000 +0000", Some("After")));
    let data = epg_from_events(&evs, NEW_YEAR_2024).expect("guide");
    assert_eq!(data.len(), 0);
}

#[test]
fn events_with_unreadable_timestamp_fail() {
    let mut evs = programme_events("ch1", "202\u{e9}0101000000 +0000", "20240101010000 +0000", Some("Bad"));
    evs.push(XmlEvent::Eof);
    assert_eq!(epg_from_events(&evs, NEW_YEAR_2024).err(), Some(EpgError::BadTimestamp));
}

// ─── Now and next ────────────────────────────────────────────────────────────

fn sample_guide() -> ipbeeldbuis::epg::EpgData {
    let mut evs = Vec::new();
    evs.extend(programme_events("bbc1.uk", "20240101000000 +0000", "20240101010000 +0000", Some("Early")));
    evs.extend(programme_events("bbc1.uk", "20240101010000 +0000", "20240101020000 +0000", Some("Late")));
    evs.extend(programme_events("bbc1.uk", "20240101030000 +0000", "20240101040000 +0000", Some("Night")));
    evs.push(XmlEvent::Eof);
    epg_from_events(&evs, NEW_YEAR_2024).expect("guide")
}

#[test]
fn now_and_next_finds_current_and_following() {
    let data = sample_guide();
    let (now, next) = now_and_next_at(&data, "bbc1.uk", NEW_YEAR_2024 + 1800);
    assert_eq!(now.map(|p| p.title.as_str()), Some("Early"));
    assert_eq!(next.map(|p| p.title.as_str()), Some("Late"));
}

#[test]
fn now_and_next_in_a_gap_gives_only_next() {
    let data = sample_guide();
    let (now, next) = now_and_next_at(&data, "bbc1.uk", NEW_YEAR_2024 + 2 * 3600 + 60);
    assert!(now.is_none());
    assert_eq!(next.map(|p| p.title.as_str()), Some("Night"));
}

#[test]
fn now_and_next_matches_loosely() {
    let data = sample_guide();
    let (now, _) = now_and_next_at(&data, "BBC1.UK", NEW_YEAR_2024 + 10);
    assert_eq!(now.map(|p| p.title.as_str()), Some("Early"));
    let (now, _) = now_and_next_at(&data, "BBC1.uk@HD", NEW_YEAR_2024 + 10);
    assert_eq!(now.map(|p| p.title.as_str()), Some("Early"));
}

#[test]
fn now_and_next_unknown_channel_is_empty() {
    let data = sample_guide();
    let (now, next) = now_and_next_at(&data, "cnn.us", NEW_YEAR_2024 + 10);
    assert!(now.is_none());
    assert!(next.is_none());
}

#[test]
fn now_and_next_after_last_programme_is_empty() {
    let data = sample_guide();
    let (now, next) = now_and_next_at(&data, "bbc1.uk", NEW_YEAR_2024 + 5 * 3600);
    assert!(now.is_none());
    assert!(next.is_none());
}

// ─── Whole documents ─────────────────────────────────────────────────────────

fn civil_from_days(z: i64) -> (i64, u32, u32) {
    let z = z + 719468;
    let era = (if z >= 0 { z } else { z - 146096 }) / 146097;
    let doe = z - era * 146097;
    let yoe = (doe - doe / 1460 + doe / 36524 - doe / 146096) / 365;
    let y = yoe + era * 400;
    let doy = doe - (365 * yoe + yoe / 4 - yoe / 100);
    let mp = (5 * doy + 2) / 153;
    let d = (doy - (153 * mp + 2) / 5 + 1) as u32;
    let m = (if mp < 10 { mp + 3 } else { mp - 9 }) as u32;
    (if m <= 2 { y + 1 } else { y }, m, d)
}

fn xmltv_stamp(ts: u64) -> String {
    let (y, m, d) = civil_from_days((ts / 86400) as i64);
    let secs = ts % 86400;
    format!("{:04}{:02}{:02}{:02}{:02}{:02} +0000", y, m, d, secs / 3600, (secs % 3600) / 60, secs % 60)
}

#[test]
fn xmltv_stamp_helper_round_trips() {
    assert_eq!(xmltv_stamp(NEW_YEAR_2024), "20240101000000 +0000");
    assert_eq!(parse_xmltv_timestamp(&xmltv_stamp(1718447400)), 1718447400);
}

#[test]
fn parse_xmltv_reads_a_document() {
    let now = std::time::SystemTime::now()
        .duration_since(std::time::UNIX_EPOCH)
        .unwrap()
        .as_secs();
    let start = now - 600;
    let stop = now + 600;
    let xml = format!(
        "<?xml version=\"1.0\"?>\n<tv>\n  <channel id=\"ch1\"><display-name>One</display-name></channel>\n  \
         <programme start=\"{}\" stop=\"{}\" channel=\"ch1\">\n    <title lang=\"en\">Now &amp; Then</title>\n    \
         <desc>Something</desc>\n  </programme>\n  \
         <programme start=\"19900101000000 +0000\" stop=\"19900101010000 +0000\" channel=\"ch1\">\n    \
         <title>Long ago</title>\n  </programme>\n</tv>\n",
        xmltv_stamp(start),
        xmltv_stamp(stop)
    );
    let data = parse_xmltv(&xml).expect("parses");
    let ps = data.get("ch1").expect("ch1");
    assert_eq!(ps.len(), 1);
    assert_eq!(ps[0].title, "Now & Then");
    assert_eq!(ps[0].desc.as_deref(), Some("Something"));
    assert_eq!(ps[0].start, start);
    assert_eq!(ps[0].stop, stop);
    let (cur, _) = now_and_next_at(&data, "ch1", now);
    assert_eq!(cur.map(|p| p.title.as_str()), Some("Now & Then"));
}

#[test]
fn parse_xmltv_of_empty_text_is_empty() {
    let data = parse_xmltv("").expect("parses");
    assert_eq!(data.len(), 0);
}

#[test]
fn events_ignore_text_that_is_not_utf8() {
    let evs = vec![
        start_tag("programme", &[("start", "20240101000000 +0000"), ("stop", "20240101010000 +0000"), ("channel", "ch1")]),
        start_tag("title", &[]),
        XmlEvent::Text { raw: vec![0x66, 0xff] },
        end_tag("title"),
        end_tag("programme"),
        XmlEvent::Eof,
    ];
    let data = epg_from_events(&evs, NEW_YEAR_2024).expect("guide");
    assert_eq!(data.len(), 0);
}

#[test]
fn events_keep_raw_text_when_unescaping_fails() {
    let evs = vec![
        start_tag("programme", &[("start", "20240101000000 +0000"), ("stop", "20240101010000 +0000"), ("channel", "ch1")]),
        start_tag("title", &[]),
        text("Tom &bogus; Jerry"),
        end_tag("title"),
        end_tag("programme"),
        XmlEvent::Eof,
    ];
    let data = epg_from_events(&evs, NEW_YEAR_2024).expect("guide");
    assert_eq!(data.get("ch1").expect("ch1")[0].title, "Tom &bogus; Jerry");
}

#[test]
fn parse_xmltv_decodes_attribute_values() {
    let now = std::time::SystemTime::now()
        .duration_since(std::time::UNIX_EPOCH)
        .unwrap()
        .as_secs();
    let xml = format!(
        "<tv><programme start=\"{}\" stop=\"{}\" channel=\" news&amp;weather \"><title>A</title></programme></tv>",
        xmltv_stamp(now),
        xmltv_stamp(now + 60)
    );
    let data = parse_xmltv(&xml).expect("parses");
    assert_eq!(data.keys(), vec!["news&weather".to_string()]);
}

#[test]
fn guide_data_built_by_hand() {
    let mut data = EpgData::new();
    assert_eq!(data.len(), 0);
    data.add("ch1".to_string(), prog("A", 10, 20));
    data.add("ch2".to_string(), prog("B", 5, 6));
    data.add("ch1".to_string(), prog("C", 20, 30));
    assert_eq!(data.keys(), vec!["ch1".to_string(), "ch2".to_string()]);
    let ch1 = data.get("ch1").expect("ch1");
    assert_eq!(ch1.len(), 2);
    assert_eq!(ch1[1].title, "C");
    let (now, next) = now_and_next_at(&data, "ch1", 15);
    assert_eq!(now.map(|p| p.title.as_str()), Some("A"));
    assert_eq!(next.map(|p| p.title.as_str()), Some("C"));
}
