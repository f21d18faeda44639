//! Casting: which streams a Chromecast can take, and the list of devices
//! found on the network.
use vstd::prelude::*;
use crate::text::{
    chars_of, contains, contains_chars, ends_with, ends_with_chars, string_of, to_lowercase,
    unicode_lowercase,
};
use crate::ui::{KeyCode, KeyPress, only_control};

verus! {

/// A Chromecast found on the local network.
pub struct CastDevice {
    pub name: String,
    pub addr: String,
    pub port: u16,
}

/// Saved state from a successful cast: enough to send control commands later.
pub struct CastSession {
    pub device_name: String,
    pub addr: String,
    pub port: u16,
    pub transport_id: String,
    pub media_session_id: i32,
}

/// The kind of stream behind a URL.
#[derive(Debug, Clone, Copy, PartialEq, Eq, Structural)]
pub enum StreamFormat {
    Hls,
    MpegTs,
    Unknown,
}

/// What the URL alone says of the stream: HLS for ".m3u8" or "/hls/",
/// MPEG-TS for a ".ts" ending or "mpeg-ts", in its lowercase form.
pub open spec fn format_of_url(url: Seq<char>) -> Option<StreamFormat> {
    let u = unicode_lowercase(url);
    if contains(u, ".m3u8"@) || contains(u, "/hls/"@) {
        Some(StreamFormat::Hls)
    } else if ends_with(u, ".ts"@) || contains(u, "mpeg-ts"@) {
        Some(StreamFormat::MpegTs)
    } else {
        None
    }
}

/// What a Content-Type header says of the stream, in its lowercase form.
pub open spec fn format_of_content_type(ct: Seq<char>) -> StreamFormat {
    let c = unicode_lowercase(ct);
    if contains(c, "mpegurl"@) || contains(c, "m3u8"@) {
        StreamFormat::Hls
    } else if contains(c, "mp2t"@) || contains(c, "mpegts"@) {
        StreamFormat::MpegTs
    } else {
        StreamFormat::Unknown
    }
}

fn has(s: &Vec<char>, pat: &str) -> (b: bool)
    ensures
        b == contains(s@, pat@),
{
    contains_chars(s, &chars_of(pat))
}

/// The stream format that the URL's own text shows, if it shows one.
pub fn format_from_url(url: &str) -> (f: Option<StreamFormat>)
    ensures
        f == format_of_url(url@),
{
    let low = to_lowercase(url);
    let u = chars_of(low.as_str());
    if has(&u, ".m3u8") || has(&u, "/hls/") {
        Some(StreamFormat::Hls)
    } else if ends_with_chars(&u, &chars_of(".ts")) || has(&u, "mpeg-ts") {
        Some(StreamFormat::MpegTs)
    } else {
        None
    }
}

/// The stream format that a Content-Type header names.
pub fn format_from_content_type(content_type: &str) -> (f: StreamFormat)
    ensures
        f == format_of_content_type(content_type@),
{
    let low = to_lowercase(content_type);
    let c = chars_of(low.as_str());
    if has(&c, "mpegurl") || has(&c, "m3u8") {
        StreamFormat::Hls
    } else if has(&c, "mp2t") || has(&c, "mpegts") {
        StreamFormat::MpegTs
    } else {
        StreamFormat::Unknown
    }
}

// ─── Devices ─────────────────────────────────────────────────────────────────

/// A Chromecast service as discovery reports it: its friendly name and
/// first IPv4 address when it has them.
pub struct FoundService {
    pub name: Option<String>,
    pub addr: Option<String>,
    pub port: u16,
}

pub struct DeviceView {
    pub name: Seq<char>,
    pub addr: Seq<char>,
    pub port: u16,
}

impl View for CastDevice {
    type V = DeviceView;

    open spec fn view(&self) -> DeviceView {
        DeviceView { name: self.name@, addr: self.addr@, port: self.port }
    }
}

pub open spec fn devices_view(ds: Seq<CastDevice>) -> Seq<DeviceView> {
    ds.map_values(|d: CastDevice| d@)
}

pub struct FoundView {
    pub name: Option<Seq<char>>,
    pub addr: Option<Seq<char>>,
    pub port: u16,
}

impl View for FoundService {
    type V = FoundView;

    open spec fn view(&self) -> FoundView {
        FoundView {
            name: match self.name {
                Some(n) => Some(n@),
                None => None,
            },
            addr: match self.addr {
                Some(a) => Some(a@),
                None => None,
            },
            port: self.port,
        }
    }
}

/// `a` sorts before `b`: character by character, by code point, a proper
/// prefix first (the order of `str`'s `Ord`, which compares UTF-8 bytes).
pub open spec fn text_lt(a: Seq<char>, b: Seq<char>) -> bool
    decreases a.len(),
{
    if a.len() == 0 {
        b.len() > 0
    } else if b.len() == 0 {
        false
    } else if a[0] != b[0] {
        a[0] < b[0]
    } else {
        text_lt(a.drop_first(), b.drop_first())
    }
}

fn text_less(a: &Vec<char>, b: &Vec<char>) -> (r: bool)
    ensures
        r == text_lt(a@, b@),
{
    let mut i: usize = 0;
    assert(a@.skip(0) == a@ && b@.skip(0) == b@);
    while i < a.len() && i < b.len() && a[i] == b[i]
        invariant
            i <= a.len(),
            i <= b.len(),
            text_lt(a@, b@) == text_lt(a@.skip(i as int), b@.skip(i as int)),
        decreases a.len() - i,
    {
        assert(a@.skip(i as int).drop_first() == a@.skip(i + 1));
        assert(b@.skip(i as int).drop_first() == b@.skip(i + 1));
        i += 1;
    }
    if i == a.len() {
        i < b.len()
    } else if i == b.len() {
        false
    } else {
        assert(a@.skip(i as int)[0] == a@[i as int]);
        assert(b@.skip(i as int)[0] == b@[i as int]);
        a[i] < b[i]
    }
}

/// `d` placed into `sorted` after every device whose name does not sort after it.
pub open spec fn insert_by_name(sorted: Seq<DeviceView>, d: DeviceView) -> Seq<DeviceView>
    decreases sorted.len(),
{
    if sorted.len() == 0 {
        seq![d]
    } else if !text_lt(d.name, sorted.last().name) {
        sorted.push(d)
    } else {
        insert_by_name(sorted.drop_last(), d).push(sorted.last())
    }
}

/// `ds` sorted by name, devices with equal names keeping their order
/// (the stable sort that `sort_by` performs).
pub open spec fn sort_by_name(ds: Seq<DeviceView>) -> Seq<DeviceView>
    decreases ds.len(),
{
    if ds.len() == 0 {
        Seq::empty()
    } else {
        insert_by_name(sort_by_name(ds.drop_last()), ds.last())
    }
}

/// The device a discovered service stands for, if it has an address: named
/// "Unknown Chromecast" when it has no name.
pub open spec fn device_of(f: FoundView) -> Option<DeviceView> {
    match f.addr {
        Some(a) => Some(
            DeviceView {
                name: match f.name {
                    Some(n) => n,
                    None => "Unknown Chromecast"@,
                },
                addr: a,
                port: f.port,
            },
        ),
        None => None,
    }
}

/// The devices of the services, in order of discovery, the first for each
/// address only.
pub open spec fn distinct_devices(fs: Seq<FoundView>) -> Seq<DeviceView>
    decreases fs.len(),
{
    if fs.len() == 0 {
        Seq::empty()
    } else {
        let prev = distinct_devices(fs.drop_last());
        match device_of(fs.last()) {
            Some(d) => if prev.map_values(|p: DeviceView| p.addr).contains(d.addr) {
                prev
            } else {
                prev.push(d)
            },
            None => prev,
        }
    }
}

proof fn lemma_insert_name_at(s: Seq<DeviceView>, d: DeviceView, j: int)
    requires
        0 <= j <= s.len(),
        forall|k: int| j <= k < s.len() ==> text_lt(d.name, #[trigger] s[k].name),
        j > 0 ==> !text_lt(d.name, s[j - 1].name),
    ensures
        insert_by_name(s, d) == s.insert(j, d),
    decreases s.len(),
{
    if s.len() == 0 {
        assert(s.insert(j, d) == seq![d]);
    } else if !text_lt(d.name, s.last().name) {
        assert(j == s.len());
        assert(s.insert(j, d) == s.push(d));
    } else {
        lemma_insert_name_at(s.drop_last(), d, j);
        assert(s.drop_last().insert(j, d).push(s.last()) == s.insert(j, d));
    }
}

fn insert_device(v: &mut Vec<CastDevice>, d: CastDevice)
    ensures
        devices_view(final(v)@) == insert_by_name(devices_view(old(v)@), d@),
{
    let name = chars_of(d.name.as_str());
    let mut j = v.len();
    while j > 0 && text_less(&name, &chars_of(v[j - 1].name.as_str()))
        invariant
            j <= v.len(),
            name@ == d.name@,
            forall|k: int| j <= k < v.len() ==> text_lt(d.name@, #[trigger] v@[k].name@),
        decreases j,
    {
        j -= 1;
    }
    let ghost before = devices_view(v@);
    proof {
        lemma_insert_name_at(before, d@, j as int);
    }
    v.insert(j, d);
    assert(devices_view(v@) == before.insert(j as int, d@));
}

/// The devices found, one per address (the first reported), sorted by name.
pub fn collect_devices(found: Vec<FoundService>) -> (ds: Vec<CastDevice>)
    ensures
        devices_view(ds@) == sort_by_name(distinct_devices(found@.map_values(|f: FoundService| f@))),
{
    let ghost fv = found@.map_values(|f: FoundService| f@);
    let mut kept: Vec<CastDevice> = Vec::new();
    let mut i: usize = 0;
    while i < found.len()
        invariant
            i <= found.len(),
            fv == found@.map_values(|f: FoundService| f@),
            devices_view(kept@) == distinct_devices(fv.take(i as int)),
        decreases found.len() - i,
    {
        let f = &found[i];
        assert(fv.take(i + 1).drop_last() == fv.take(i as int));
        assert(fv.take(i + 1).last() == f@);
        match &f.addr {
            Some(addr) => {
                let a = chars_of(addr.as_str());
                let mut seen = false;
                let mut k: usize = 0;
                while k < kept.len()
                    invariant
                        k <= kept.len(),
                        a@ == addr@,
                        !seen ==> forall|m: int| 0 <= m < k ==> kept@[m].addr@ != addr@,
                        seen ==> devices_view(kept@).map_values(|p: DeviceView| p.addr).contains(addr@),
                    decreases kept.len() - k,
                {
                    if crate::text::same_text(kept[k].addr.as_str(), addr.as_str()) {
                        assert(devices_view(kept@).map_values(|p: DeviceView| p.addr)[k as int] == addr@);
                        seen = true;
                    }
                    k += 1;
                }
                if !seen {
                    let ghost addrs = devices_view(kept@).map_values(|p: DeviceView| p.addr);
                    assert forall|m: int| 0 <= m < addrs.len() implies #[trigger] addrs[m] != addr@ by {
                        assert(kept@[m].addr@ != addr@);
                    }
                    assert(!addrs.contains(addr@));
                    let name = match &f.name {
                        Some(n) => n.clone(),
                        None => string_of(&chars_of("Unknown Chromecast")),
                    };
                    let ghost prev = kept@;
                    kept.push(CastDevice { name, addr: addr.clone(), port: f.port });
                    assert(devices_view(kept@) =~= devices_view(prev).push(kept@.last()@));
                }
            },
            None => {},
        }
        i += 1;
    }
    assert(fv.take(i as int) == fv);
    let ghost dv = devices_view(kept@);
    let n = kept.len();
    let mut src = kept;
    let mut out: Vec<CastDevice> = Vec::new();
    let mut j: usize = 0;
    assert(dv.take(0) == Seq::<DeviceView>::empty());
    while src.len() > 0
        invariant
            j + src.len() == n,
            n == dv.len(),
            devices_view(src@) == dv.skip(j as int),
            devices_view(out@) == sort_by_name(dv.take(j as int)),
        decreases src.len(),
    {
        let ghost before = src@;
        let d = src.remove(0);
        assert(devices_view(src@) =~= devices_view(before).drop_first());
        assert(dv.skip(j as int).drop_first() =~= dv.skip(j + 1));
        assert(d@ == dv[j as int]) by {
            assert(devices_view(before)[0] == dv.skip(j as int)[0]);
        }
        assert(dv.take(j + 1).drop_last() == dv.take(j as int));
        insert_device(&mut out, d);
        j += 1;
    }
    assert(dv.take(j as int) == dv);
    out
}

// ─── Casting a channel ───────────────────────────────────────────────────────

/// What happens when a channel is to be cast.
#[derive(Debug, Clone, Copy, PartialEq, Eq, Structural)]
pub enum CastStep {
    /// No Chromecast was found: say so.
    NoDevices,
    /// The stream is MPEG-TS, which a Chromecast does not play: say so.
    Unsupported,
    /// Let the user pick one of the devices.
    PickDevice,
}

pub open spec fn cast_step_of(device_count: nat, format: StreamFormat) -> CastStep {
    if device_count == 0 {
        CastStep::NoDevices
    } else if format == StreamFormat::MpegTs {
        CastStep::Unsupported
    } else {
        CastStep::PickDevice
    }
}

/// Decides how casting goes on once devices have been looked for and the
/// stream's format is known.
pub fn cast_step(device_count: usize, format: StreamFormat) -> (s: CastStep)
    ensures
        s == cast_step_of(device_count as nat, format),
{
    if device_count == 0 {
        CastStep::NoDevices
    } else if format == StreamFormat::MpegTs {
        CastStep::Unsupported
    } else {
        CastStep::PickDevice
    }
}

/// The status line shown while a channel is being cast.
pub fn casting_status(channel_name: &str) -> (s: String)
    ensures
        s@ == "Casting: "@ + channel_name@,
{
    let mut v = chars_of("Casting: ");
    let name = chars_of(channel_name);
    let mut i: usize = 0;
    let ghost start = v@;
    while i < name.len()
        invariant
            i <= name.len(),
            v@ == start + name@.take(i as int),
        decreases name.len() - i,
    {
        v.push(name[i]);
        assert(name@.take(i + 1) == name@.take(i as int).push(name@[i as int]));
        i += 1;
    }
    assert(name@.take(i as int) == name@);
    string_of(&v)
}

// ─── Controlling a cast ──────────────────────────────────────────────────────

/// What the user chose in the cast control popup.
#[derive(Debug, Clone, Copy, PartialEq, Eq, Structural)]
pub enum CastControlAction {
    Pause,
    Resume,
    Stop,
    Cancel,
}

/// A command sent to the device of a cast session.
#[derive(Debug, Clone, Copy, PartialEq, Eq, Structural)]
pub enum CastCommand {
    Pause,
    Resume,
    Stop,
}

/// The command a choice sends, and whether the session and its status line
/// are dropped: without a session nothing happens; Stop drops the session
/// whatever the device answers, since it cannot be used afterwards.
pub open spec fn cast_control_of(has_session: bool, action: CastControlAction) -> (Option<CastCommand>, bool) {
    if !has_session {
        (None, false)
    } else {
        match action {
            CastControlAction::Pause => (Some(CastCommand::Pause), false),
            CastControlAction::Resume => (Some(CastCommand::Resume), false),
            CastControlAction::Stop => (Some(CastCommand::Stop), true),
            CastControlAction::Cancel => (None, false),
        }
    }
}

/// Decides what a choice in the cast control popup does.
pub fn cast_control_step(has_session: bool, action: CastControlAction) -> (r: (Option<CastCommand>, bool))
    ensures
        r == cast_control_of(has_session, action),
{
    if !has_session {
        return (None, false);
    }
    match action {
        CastControlAction::Pause => (Some(CastCommand::Pause), false),
        CastControlAction::Resume => (Some(CastCommand::Resume), false),
        CastControlAction::Stop => (Some(CastCommand::Stop), true),
        CastControlAction::Cancel => (None, false),
    }
}

/// The choice a key press makes in the cast control popup: p pauses, r
/// resumes, s stops, Esc, q or Control-c cancel; other keys choose nothing.
pub open spec fn control_choice_of(k: KeyPress) -> Option<CastControlAction> {
    match k.code {
        KeyCode::Char('c') if only_control(k.modifiers) => Some(CastControlAction::Cancel),
        KeyCode::Char('p') => Some(CastControlAction::Pause),
        KeyCode::Char('r') => Some(CastControlAction::Resume),
        KeyCode::Char('s') => Some(CastControlAction::Stop),
        KeyCode::Esc | KeyCode::Char('q') => Some(CastControlAction::Cancel),
        _ => None,
    }
}

/// The choice a key press makes in the cast control popup.
pub fn control_choice(key: KeyPress) -> (r: Option<CastControlAction>)
    ensures
        r == control_choice_of(key),
{
    let m = key.modifiers;
    match key.code {
        KeyCode::Char('c') if m.control && !m.shift && !m.other => Some(CastControlAction::Cancel),
        KeyCode::Char('p') => Some(CastControlAction::Pause),
        KeyCode::Char('r') => Some(CastControlAction::Resume),
        KeyCode::Char('s') => Some(CastControlAction::Stop),
        KeyCode::Esc | KeyCode::Char('q') => Some(CastControlAction::Cancel),
        _ => None,
    }
}

// ─── Laws ────────────────────────────────────────────────────────────────────

proof fn lemma_text_lt_asymmetric(a: Seq<char>, b: Seq<char>)
    ensures
        text_lt(a, b) ==> !text_lt(b, a),
        !text_lt(a, b) && !text_lt(b, a) ==> a == b,
    decreases a.len(),
{
    if a.len() == 0 && b.len() == 0 {
        assert(a =~= b);
    }

    if a.len() > 0 && b.len() > 0 && a[0] == b[0] {
        lemma_text_lt_asymmetric(a.drop_first(), b.drop_first());
        if !text_lt(a, b) && !text_lt(b, a) {
            assert(a.drop_first() == b.drop_first());
            assert forall|i: int| 0 <= i < a.len() implies a[i] == b[i] by {
                if i > 0 {
                    assert(a[i] == a.drop_first()[i - 1]);
                    assert(b[i] == b.drop_first()[i - 1]);
                }
            }
            assert(a =~= b);
        }
    }
}

proof fn lemma_text_lt_transitive(a: Seq<char>, b: Seq<char>, c: Seq<char>)
    ensures
        text_lt(a, b) && text_lt(b, c) ==> text_lt(a, c),
    decreases a.len(),
{
    if a.len() > 0 && b.len() > 0 && c.len() > 0 && a[0] == b[0] && b[0] == c[0] {
        lemma_text_lt_transitive(a.drop_first(), b.drop_first(), c.drop_first());
    }
}

/// Names in order: none sorts before one listed earlier.
pub open spec fn names_sorted(ds: Seq<DeviceView>) -> bool {
    forall|i: int, j: int| 0 <= i < j < ds.len() ==> !text_lt(ds[j].name, ds[i].name)
}

/// Every name is at most `top`.
pub open spec fn names_at_most(ds: Seq<DeviceView>, top: Seq<char>) -> bool {
    forall|i: int| 0 <= i < ds.len() ==> !text_lt(top, #[trigger] ds[i].name)
}

proof fn lemma_insert_name_sorted(s: Seq<DeviceView>, d: DeviceView)
    requires
        names_sorted(s),
    ensures
        names_sorted(insert_by_name(s, d)),
        insert_by_name(s, d).to_multiset() =~= s.to_multiset().insert(d),
        forall|top: Seq<char>| names_at_most(s, top) && !text_lt(top, d.name) ==> names_at_most(
            #[trigger] insert_by_name(s, d),
            top,
        ),
    decreases s.len(),
{
    broadcast use vstd::seq_lib::group_to_multiset_ensures;

    if s.len() == 0 {
        assert(insert_by_name(s, d) == s.push(d));
    } else if !text_lt(d.name, s.last().name) {
        let r = s.push(d);
        assert forall|i: int, j: int| 0 <= i < j < r.len() implies !text_lt(r[j].name, r[i].name) by {
            if j == s.len() && i < s.len() - 1 {
                lemma_text_lt_asymmetric(s.last().name, s[i].name);
                lemma_text_lt_transitive(d.name, s.last().name, s[i].name);
                lemma_text_lt_asymmetric(d.name, s.last().name);
                lemma_text_lt_asymmetric(s[i].name, s.last().name);
                if text_lt(d.name, s[i].name) {
                    // s[i] <= last and d < s[i] would give d < last
                    if s.last().name != s[i].name {
                        assert(text_lt(s[i].name, s.last().name));
                        lemma_text_lt_transitive(d.name, s[i].name, s.last().name);
                    }
                }
            }
        }
    } else {
        let init = s.drop_last();
        let last = s.last();
        lemma_insert_name_sorted(init, d);
        let r = insert_by_name(init, d);
        assert(names_sorted(init)) by {
            assert forall|i: int, j: int| 0 <= i < j < init.len() implies !text_lt(init[j].name, init[i].name) by {
                assert(init[i] == s[i] && init[j] == s[j]);
            }
        }
        assert(names_at_most(init, last.name)) by {
            assert forall|i: int| 0 <= i < init.len() implies !text_lt(last.name, #[trigger] init[i].name) by {
                assert(init[i] == s[i]);
            }
        }
        lemma_text_lt_asymmetric(d.name, last.name);
        assert(names_at_most(r, last.name));
        let r2 = r.push(last);
        assert forall|i: int, j: int| 0 <= i < j < r2.len() implies !text_lt(r2[j].name, r2[i].name) by {
            if j == r.len() {
                assert(r2[i] == r[i]);
            }
        }
        assert(s == init.push(last));
        assert forall|top: Seq<char>| names_at_most(s, top) && !text_lt(top, d.name) implies names_at_most(
            #[trigger] insert_by_name(s, d),
            top,
        ) by {
            assert(names_at_most(init, top)) by {
                assert forall|i: int| 0 <= i < init.len() implies !text_lt(top, #[trigger] init[i].name) by {
                    assert(init[i] == s[i]);
                }
            }
            assert(names_at_most(r, top));
            assert(!text_lt(top, s[s.len() - 1].name));
        }
    }
}

proof fn lemma_sort_by_name(ds: Seq<DeviceView>)
    ensures
        names_sorted(sort_by_name(ds)),
        sort_by_name(ds).to_multiset() =~= ds.to_multiset(),
    decreases ds.len(),
{
    broadcast use vstd::seq_lib::group_to_multiset_ensures;

    if ds.len() > 0 {
        lemma_sort_by_name(ds.drop_last());
        lemma_insert_name_sorted(sort_by_name(ds.drop_last()), ds.last());
        assert(ds == ds.drop_last().push(ds.last()));
    }
}

proof fn lemma_distinct_devices(fs: Seq<FoundView>)
    ensures
        forall|i: int, j: int|
            0 <= i < j < distinct_devices(fs).len() ==> distinct_devices(fs)[i].addr
                != distinct_devices(fs)[j].addr,
    decreases fs.len(),
{
    if fs.len() > 0 {
        lemma_distinct_devices(fs.drop_last());
        let prev = distinct_devices(fs.drop_last());
        match device_of(fs.last()) {
            Some(d) => {
                let addrs = prev.map_values(|p: DeviceView| p.addr);
                if !addrs.contains(d.addr) {
                    let r = prev.push(d);
                    assert forall|i: int, j: int| 0 <= i < j < r.len() implies r[i].addr != r[j].addr by {
                        if j == prev.len() {
                            assert(addrs[i] == prev[i].addr);
                        } else {
                            assert(r[i] == prev[i] && r[j] == prev[j]);
                        }
                    }
                }
            },
            None => {},
        }
    }
}

/// The devices listed come in order of name, each device reported is
/// listed at most once per address, and sorting neither drops nor adds any.
pub proof fn devices_are_sorted_and_distinct(fs: Seq<FoundView>)
    ensures
        names_sorted(sort_by_name(distinct_devices(fs))),
        sort_by_name(distinct_devices(fs)).to_multiset() =~= distinct_devices(fs).to_multiset(),
        forall|i: int, j: int|
            0 <= i < j < distinct_devices(fs).len() ==> distinct_devices(fs)[i].addr
                != distinct_devices(fs)[j].addr,
{
    lemma_sort_by_name(distinct_devices(fs));
    lemma_distinct_devices(fs);
}

} // verus!
