//! Electronic programme guide: programmes gathered from XMLTV documents,
//! and the programme on now and next for a channel.
use vstd::prelude::*;
use vstd::utf8::{decode_utf8, valid_utf8};
use quick_xml::events::Event;
use crate::text::{
    chars_of, rfind_char, string_of, to_lowercase, trim, trim_chars,
    unicode_lowercase, last_index_of, copy_range, first_index, lemma_first_index,
};
use crate::xmltv_time::{parse_xmltv_timestamp_checked, timestamp_defined, xmltv_timestamp};

verus! {

// ─── Programmes ──────────────────────────────────────────────────────────────

/// One broadcast of a channel.
pub struct Programme {
    pub title: String,
    pub desc: Option<String>,
    /// UNIX time (UTC) at which it begins.
    pub start: u64,
    /// UNIX time (UTC) at which it ends.
    pub stop: u64,
}

pub struct ProgrammeView {
    pub title: Seq<char>,
    pub desc: Option<Seq<char>>,
    pub start: u64,
    pub stop: u64,
}

pub open spec fn opt_text(o: Option<String>) -> Option<Seq<char>> {
    match o {
        Some(s) => Some(s@),
        None => None,
    }
}

impl View for Programme {
    type V = ProgrammeView;

    open spec fn view(&self) -> ProgrammeView {
        ProgrammeView { title: self.title@, desc: opt_text(self.desc), start: self.start, stop: self.stop }
    }
}

pub open spec fn programmes_view(ps: Seq<Programme>) -> Seq<ProgrammeView> {
    ps.map_values(|p: Programme| p@)
}

/// `p` placed into `sorted` after every programme that starts no later.
pub open spec fn insert_by_start(sorted: Seq<ProgrammeView>, p: ProgrammeView) -> Seq<ProgrammeView>
    decreases sorted.len(),
{
    if sorted.len() == 0 {
        seq![p]
    } else if sorted.last().start <= p.start {
        sorted.push(p)
    } else {
        insert_by_start(sorted.drop_last(), p).push(sorted.last())
    }
}

/// `ps` sorted by start time, programmes that start together keeping their
/// order (the stable sort that `sort_by_key` performs).
pub open spec fn sort_by_start(ps: Seq<ProgrammeView>) -> Seq<ProgrammeView>
    decreases ps.len(),
{
    if ps.len() == 0 {
        Seq::empty()
    } else {
        insert_by_start(sort_by_start(ps.drop_last()), ps.last())
    }
}

proof fn lemma_insert_at(s: Seq<ProgrammeView>, p: ProgrammeView, j: int)
    requires
        0 <= j <= s.len(),
        forall|k: int| j <= k < s.len() ==> s[k].start > p.start,
        j > 0 ==> s[j - 1].start <= p.start,
    ensures
        insert_by_start(s, p) == s.insert(j, p),
    decreases s.len(),
{
    if s.len() == 0 {
        assert(s.insert(j, p) == seq![p]);
    } else if s.last().start <= p.start {
        assert(j == s.len());
        assert(s.insert(j, p) == s.push(p));
    } else {
        lemma_insert_at(s.drop_last(), p, j);
        assert(s.drop_last().insert(j, p).push(s.last()) == s.insert(j, p));
    }
}

fn insert_programme(v: &mut Vec<Programme>, p: Programme)
    ensures
        programmes_view(final(v)@) == insert_by_start(programmes_view(old(v)@), p@),
{
    let mut j = v.len();
    while j > 0 && v[j - 1].start > p.start
        invariant
            j <= v.len(),
            forall|k: int| j <= k < v.len() ==> v@[k].start > p.start,
        decreases j,
    {
        j -= 1;
    }
    let ghost before = programmes_view(v@);
    proof {
        lemma_insert_at(before, p@, j as int);
    }
    v.insert(j, p);
    assert(programmes_view(v@) == before.insert(j as int, p@));
}

/// The programmes of `v` in start order.
pub fn sort_programmes(v: Vec<Programme>) -> (r: Vec<Programme>)
    ensures
        programmes_view(r@) == sort_by_start(programmes_view(v@)),
{
    let ghost orig = programmes_view(v@);
    let n = v.len();
    let mut src = v;
    let mut out: Vec<Programme> = Vec::new();
    let mut k: usize = 0;
    assert(orig.take(0) == Seq::<ProgrammeView>::empty());
    while src.len() > 0
        invariant
            k + src.len() == n,
            n == orig.len(),
            programmes_view(src@) == orig.skip(k as int),
            programmes_view(out@) == sort_by_start(orig.take(k as int)),
        decreases src.len(),
    {
        let ghost before = src@;
        let p = src.remove(0);
        assert(programmes_view(src@) =~= programmes_view(before).drop_first());
        assert(orig.skip(k as int).drop_first() =~= orig.skip(k + 1));
        assert(p@ == orig[k as int]) by {
            assert(programmes_view(before)[0] == orig.skip(k as int)[0]);
        }
        assert(orig.take(k + 1).drop_last() == orig.take(k as int));
        insert_programme(&mut out, p);
        k += 1;
    }
    assert(orig.take(k as int) == orig);
    out
}

// ─── The guide ───────────────────────────────────────────────────────────────

/// Channel ids with their programmes, in order of first appearance.
pub type GuideView = Seq<(Seq<char>, Seq<ProgrammeView>)>;

/// No channel id occurs twice.
pub open spec fn keys_distinct(g: GuideView) -> bool {
    forall|i: int, j: int| 0 <= i < g.len() && 0 <= j < g.len() && i != j ==> g[i].0 != g[j].0
}

/// Index of channel id `id` in `g`, or -1.
pub open spec fn key_index(g: GuideView, id: Seq<char>) -> int
    decreases g.len(),
{
    if g.len() == 0 {
        -1
    } else if g.last().0 == id {
        g.len() - 1
    } else {
        key_index(g.drop_last(), id)
    }
}

proof fn lemma_key_index(g: GuideView, id: Seq<char>, k: int)
    requires
        -1 <= k < g.len(),
        forall|j: int| k < j < g.len() ==> g[j].0 != id,
        k >= 0 ==> g[k].0 == id,
    ensures
        key_index(g, id) == k,
    decreases g.len(),
{
    if g.len() > 0 && g.last().0 != id {
        lemma_key_index(g.drop_last(), id, k);
    }
}

/// `p` added to channel `id`: appended to its list, or as a new channel last.
pub open spec fn add_programme(g: GuideView, id: Seq<char>, p: ProgrammeView) -> GuideView {
    let i = key_index(g, id);
    if i < 0 {
        g.push((id, seq![p]))
    } else {
        g.update(i, (id, g[i].1.push(p)))
    }
}

/// Every channel's programmes put in start order.
pub open spec fn sorted_guide(g: GuideView) -> GuideView {
    g.map_values(|e: (Seq<char>, Seq<ProgrammeView>)| (e.0, sort_by_start(e.1)))
}

/// Programme guide data: channel ids and their programmes.
pub struct EpgData {
    entries: Vec<(String, Vec<Programme>)>,
}

pub open spec fn entry_view(e: (String, Vec<Programme>)) -> (Seq<char>, Seq<ProgrammeView>) {
    (e.0@, programmes_view(e.1@))
}

pub open spec fn entries_view(es: Seq<(String, Vec<Programme>)>) -> GuideView {
    es.map_values(|e: (String, Vec<Programme>)| entry_view(e))
}

/// Adds `p` to channel `id`: to the end of its list, or as a new channel last.
fn push_programme(entries: &mut Vec<(String, Vec<Programme>)>, id: String, p: Programme)
    requires
        keys_distinct(entries_view(old(entries)@)),
    ensures
        entries_view(final(entries)@) == add_programme(entries_view(old(entries)@), id@, p@),
        keys_distinct(entries_view(final(entries)@)),
{
    proof {
        lemma_add_keeps_distinct(entries_view(entries@), id@, p@);
    }
    let ghost g = entries_view(entries@);
    let mut i = entries.len();
    while i > 0
        invariant
            i <= entries@.len(),
            g == entries_view(entries@),
            entries@ == old(entries)@,
            keys_distinct(add_programme(g, id@, p@)),
            forall|j: int| i <= j < g.len() ==> g[j].0 != id@,
        decreases i,
    {
        if entries[i - 1].0 == id {
            proof {
                lemma_key_index(g, id@, i - 1);
            }
            let ghost before = entries@;
            entries[i - 1].1.push(p);
            assert(entries@.len() == before.len());
            assert(entries@[i - 1].1@ == before[i - 1].1@.push(p));
            assert(programmes_view(entries@[i - 1].1@) =~= programmes_view(before[i - 1].1@).push(p@));
            assert forall|j: int| 0 <= j < g.len() && j != i - 1 implies entries@[j] == before[j] by {}
            assert(entries_view(entries@) =~= g.update(i - 1, (id@, g[i - 1].1.push(p@))));
            return;
        }
        i -= 1;
    }
    proof {
        lemma_key_index(g, id@, -1);
    }
    let mut list: Vec<Programme> = Vec::new();
    list.push(p);
    entries.push((id, list));
    assert(programmes_view(list@) == seq![p@]);
    assert(entries_view(entries@) =~= g.push((id@, seq![p@])));
}


impl View for EpgData {
    type V = GuideView;

    closed spec fn view(&self) -> GuideView {
        entries_view(self.entries@)
    }
}

impl EpgData {
    /// Channel ids are distinct.
    pub closed spec fn wf(&self) -> bool {
        keys_distinct(self@)
    }

    /// Guide data with no channels.
    pub fn new() -> (d: EpgData)
        ensures
            d@ == Seq::<(Seq<char>, Seq<ProgrammeView>)>::empty(),
            d.wf(),
    {
        let d = EpgData { entries: Vec::new() };
        assert(d@ =~= Seq::<(Seq<char>, Seq<ProgrammeView>)>::empty());
        d
    }

    /// Adds programme `p` to channel `id`: at the end of its programmes,
    /// or as a new channel after the others.
    pub fn add(&mut self, id: String, p: Programme)
        requires
            old(self).wf(),
        ensures
            final(self)@ == add_programme(old(self)@, id@, p@),
            final(self).wf(),
    {
        push_programme(&mut self.entries, id, p);
    }

    /// Number of channels.
    pub fn len(&self) -> (n: usize)
        ensures
            n == self@.len(),
    {
        self.entries.len()
    }

    /// The channel ids, in order.
    pub fn keys(&self) -> (ks: Vec<String>)
        ensures
            ks@.len() == self@.len(),
            forall|i: int| 0 <= i < ks@.len() ==> ks@[i]@ == self@[i].0,
    {
        let mut ks: Vec<String> = Vec::new();
        let mut i: usize = 0;
        while i < self.entries.len()
            invariant
                i <= self.entries@.len(),
                ks@.len() == i,
                forall|j: int| 0 <= j < i ==> ks@[j]@ == self@[j].0,
            decreases self.entries@.len() - i,
        {
            ks.push(self.entries[i].0.clone());
            i += 1;
        }
        ks
    }

    /// The index of channel `id`, compared exactly.
    fn find(&self, id: &str) -> (r: Option<usize>)
        ensures
            key_index(self@, id@) == (match r {
                Some(i) => i as int,
                None => -1,
            }),
            r matches Some(i) ==> i < self@.len(),
    {
        let target = id.to_owned();
        let mut i = self.entries.len();
        while i > 0
            invariant
                i <= self.entries@.len(),
                target@ == id@,
                forall|j: int| i <= j < self@.len() ==> self@[j].0 != id@,
            decreases i,
        {
            if self.entries[i - 1].0 == target {
                proof {
                    lemma_key_index(self@, id@, i - 1);
                }
                return Some(i - 1);
            }
            i -= 1;
        }
        proof {
            lemma_key_index(self@, id@, -1);
        }
        None
    }

    /// The programmes of channel `id`, compared exactly.
    pub fn get(&self, id: &str) -> (r: Option<&Vec<Programme>>)
        ensures
            key_index(self@, id@) < 0 ==> r is None,
            key_index(self@, id@) >= 0 ==> (r matches Some(ps) && programmes_view(ps@) == self@[key_index(
                self@,
                id@,
            )].1),
    {
        match self.find(id) {
            Some(i) => Some(&self.entries[i].1),
            None => None,
        }
    }
}

// ─── XMLTV documents ─────────────────────────────────────────────────────────

/// An attribute of an XML start tag: its name, and its value unescaped
/// (`None` where unescaping failed).
pub struct XmlAttr {
    pub key: Vec<u8>,
    pub value: Option<String>,
}

/// One event of an XML reader, holding plain values.
pub enum XmlEvent {
    Start { name: Vec<u8>, attrs: Vec<XmlAttr> },
    End { name: Vec<u8> },
    /// Text content, as raw (still escaped) bytes.
    Text { raw: Vec<u8> },
    Eof,
    Error,
    Other,
}

pub enum XmlEventView {
    Start { name: Seq<u8>, attrs: Seq<(Seq<u8>, Option<Seq<char>>)> },
    End { name: Seq<u8> },
    Text { raw: Seq<u8> },
    Eof,
    Error,
    Other,
}

pub open spec fn attr_view(a: XmlAttr) -> (Seq<u8>, Option<Seq<char>>) {
    (a.key@, opt_text(a.value))
}

impl View for XmlEvent {
    type V = XmlEventView;

    open spec fn view(&self) -> XmlEventView {
        match self {
            XmlEvent::Start { name, attrs } => XmlEventView::Start {
                name: name@,
                attrs: attrs@.map_values(|a: XmlAttr| attr_view(a)),
            },
            XmlEvent::End { name } => XmlEventView::End { name: name@ },
            XmlEvent::Text { raw } => XmlEventView::Text { raw: raw@ },
            XmlEvent::Eof => XmlEventView::Eof,
            XmlEvent::Error => XmlEventView::Error,
            XmlEvent::Other => XmlEventView::Other,
        }
    }
}

/// The bytes of "programme".
pub open spec fn programme_tag() -> Seq<u8> {
    seq![112u8, 114, 111, 103, 114, 97, 109, 109, 101]
}

/// The bytes of "title".
pub open spec fn title_tag() -> Seq<u8> {
    seq![116u8, 105, 116, 108, 101]
}

/// The bytes of "desc".
pub open spec fn desc_tag() -> Seq<u8> {
    seq![100u8, 101, 115, 99]
}

/// The bytes of "start".
pub open spec fn start_key() -> Seq<u8> {
    seq![115u8, 116, 97, 114, 116]
}

/// The bytes of "stop".
pub open spec fn stop_key() -> Seq<u8> {
    seq![115u8, 116, 111, 112]
}

/// The bytes of "channel".
pub open spec fn channel_key() -> Seq<u8> {
    seq![99u8, 104, 97, 110, 110, 101, 108]
}

/// Name for what `quick_xml::escape::unescape` returns: the text with its
/// XML entity and character references replaced, or `None` on a malformed
/// reference.
pub uninterp spec fn xml_unescaped(raw: Seq<char>) -> Option<Seq<char>>;

/// Trusted: `quick_xml::escape::unescape` of `raw`, a function of `raw`
/// alone, which this crate calls `xml_unescaped`; its error becomes `None`.
#[verifier::external_body]
fn unescape_text(raw: &str) -> (r: Option<String>)
    ensures
        opt_text(r) == xml_unescaped(raw@),
{
    match quick_xml::escape::unescape(raw) {
        Ok(t) => Some(t.into_owned()),
        Err(_) => None,
    }
}

/// Trusted: `std::str::from_utf8` accepts exactly the valid UTF-8 byte
/// sequences and decodes them.
#[verifier::external_body]
fn utf8_text(bytes: &[u8]) -> (r: Option<&str>)
    ensures
        r is Some <==> valid_utf8(bytes@),
        r matches Some(s) ==> s@ == decode_utf8(bytes@),
{
    std::str::from_utf8(bytes).ok()
}

/// The state of a pass over the events of an XMLTV document.
pub struct ScanView {
    /// Programmes kept so far, per channel in document order.
    pub data: GuideView,
    pub channel: Option<Seq<char>>,
    pub start: u64,
    pub stop: u64,
    pub title: Option<Seq<char>>,
    pub desc: Option<Seq<char>>,
    pub in_title: bool,
    pub in_desc: bool,
    pub in_programme: bool,
    /// Programmes are kept only when they start within these bounds.
    pub window_start: u64,
    pub window_end: u64,
}

/// The state before the first event, with the window of a week either side of `now`.
pub open spec fn scan_start(now: u64) -> ScanView {
    ScanView {
        data: Seq::empty(),
        channel: None,
        start: 0,
        stop: 0,
        title: None,
        desc: None,
        in_title: false,
        in_desc: false,
        in_programme: false,
        window_start: if now >= 604800 { (now - 604800) as u64 } else { 0 },
        window_end: (now + 604800) as u64,
    }
}

/// One attribute of a `programme` start tag; `None` where the timestamp in
/// it is one that `parse_xmltv_timestamp` does not accept.
pub open spec fn scan_attr(st: ScanView, a: (Seq<u8>, Option<Seq<char>>)) -> Option<ScanView> {
    match a.1 {
        None => Some(st),
        Some(v) => if a.0 == start_key() {
            if timestamp_defined(v) {
                Some(ScanView { start: xmltv_timestamp(v), ..st })
            } else {
                None
            }
        } else if a.0 == stop_key() {
            if timestamp_defined(v) {
                Some(ScanView { stop: xmltv_timestamp(v), ..st })
            } else {
                None
            }
        } else if a.0 == channel_key() {
            Some(ScanView { channel: Some(trim(v)), ..st })
        } else {
            Some(st)
        },
    }
}

pub open spec fn scan_attrs(st: ScanView, attrs: Seq<(Seq<u8>, Option<Seq<char>>)>) -> Option<ScanView>
    decreases attrs.len(),
{
    if attrs.len() == 0 {
        Some(st)
    } else {
        match scan_attr(st, attrs[0]) {
            None => None,
            Some(s2) => scan_attrs(s2, attrs.drop_first()),
        }
    }
}

/// The text of a text event: its bytes decoded and unescaped, the raw text
/// where unescaping fails; `None` when the bytes are not UTF-8.
pub open spec fn event_text(raw: Seq<u8>) -> Option<Seq<char>> {
    if valid_utf8(raw) {
        let t = decode_utf8(raw);
        match xml_unescaped(t) {
            Some(u) => Some(u),
            None => Some(t),
        }
    } else {
        None
    }
}

/// The state after the end of a `programme` element: the programme is kept
/// when it has a channel and a title and starts within the window.
pub open spec fn close_programme(st: ScanView) -> ScanView {
    let cleared = ScanView { channel: None, title: None, in_programme: false, ..st };
    match (st.channel, st.title) {
        (Some(ch), Some(t)) => if st.window_start <= st.start && st.start <= st.window_end {
            ScanView {
                data: add_programme(
                    st.data,
                    ch,
                    ProgrammeView { title: t, desc: st.desc, start: st.start, stop: st.stop },
                ),
                desc: None,
                ..cleared
            }
        } else {
            cleared
        },
        _ => cleared,
    }
}

/// The state after one event; `None` where a timestamp is not accepted.
pub open spec fn scan_event(st: ScanView, ev: XmlEventView) -> Option<ScanView> {
    match ev {
        XmlEventView::Start { name, attrs } => if name == programme_tag() {
            scan_attrs(
                ScanView {
                    in_programme: true,
                    title: None,
                    desc: None,
                    channel: None,
                    start: 0,
                    stop: 0,
                    ..st
                },
                attrs,
            )
        } else if name == title_tag() && st.in_programme {
            Some(ScanView { in_title: true, ..st })
        } else if name == desc_tag() && st.in_programme {
            Some(ScanView { in_desc: true, ..st })
        } else {
            Some(st)
        },
        XmlEventView::Text { raw } => match event_text(raw) {
            Some(text) => if st.in_title && st.title is None {
                Some(ScanView { title: Some(text), ..st })
            } else if st.in_desc && st.desc is None {
                Some(ScanView { desc: Some(text), ..st })
            } else {
                Some(st)
            },
            None => Some(st),
        },
        XmlEventView::End { name } => if name == title_tag() {
            Some(ScanView { in_title: false, ..st })
        } else if name == desc_tag() {
            Some(ScanView { in_desc: false, ..st })
        } else if name == programme_tag() && st.in_programme {
            Some(close_programme(st))
        } else {
            Some(st)
        },
        _ => Some(st),
    }
}

/// The state after the events up to the first end of document or error.
pub open spec fn scan_events(st: ScanView, evs: Seq<XmlEventView>) -> Option<ScanView>
    decreases evs.len(),
{
    if evs.len() == 0 {
        Some(st)
    } else {
        match evs[0] {
            XmlEventView::Eof | XmlEventView::Error => Some(st),
            _ => match scan_event(st, evs[0]) {
                None => None,
                Some(s2) => scan_events(s2, evs.drop_first()),
            },
        }
    }
}

proof fn lemma_add_keeps_distinct(g: GuideView, id: Seq<char>, p: ProgrammeView)
    requires
        keys_distinct(g),
    ensures
        keys_distinct(add_programme(g, id, p)),
{
    let i = key_index(g, id);
    if i < 0 {
        assert forall|j: int| 0 <= j < g.len() implies g[j].0 != id by {
            lemma_key_index_absent(g, id, j);
        }
    } else {
        lemma_key_index_found(g, id);
    }
}

proof fn lemma_key_index_absent(g: GuideView, id: Seq<char>, j: int)
    requires
        key_index(g, id) < 0,
        0 <= j < g.len(),
    ensures
        g[j].0 != id,
    decreases g.len(),
{
    if j < g.len() - 1 {
        lemma_key_index_absent(g.drop_last(), id, j);
    }
}

proof fn lemma_key_index_found(g: GuideView, id: Seq<char>)
    ensures
        key_index(g, id) < g.len(),
        key_index(g, id) >= 0 ==> g[key_index(g, id)].0 == id,
    decreases g.len(),
{
    if g.len() > 0 && g.last().0 != id {
        lemma_key_index_found(g.drop_last(), id);
    }
}

/// Whether two byte strings are equal.
fn same_bytes(a: &Vec<u8>, b: &Vec<u8>) -> (r: bool)
    ensures
        r == (a@ == b@),
{
    if a.len() != b.len() {
        return false;
    }
    let mut i: usize = 0;
    while i < a.len()
        invariant
            a.len() == b.len(),
            i <= a.len(),
            forall|j: int| 0 <= j < i ==> a@[j] == b@[j],
        decreases a.len() - i,
    {
        if a[i] != b[i] {
            return false;
        }
        i += 1;
    }
    assert(a@ == b@);
    true
}

/// A pass over the events of an XMLTV document, collecting programmes.
pub struct Scanner {
    entries: Vec<(String, Vec<Programme>)>,
    channel: Option<String>,
    start: u64,
    stop: u64,
    title: Option<String>,
    desc: Option<String>,
    in_title: bool,
    in_desc: bool,
    in_programme: bool,
    window_start: u64,
    window_end: u64,
}

impl View for Scanner {
    type V = ScanView;

    closed spec fn view(&self) -> ScanView {
        ScanView {
            data: self.entries@.map_values(|e: (String, Vec<Programme>)| entry_view(e)),
            channel: opt_text(self.channel),
            start: self.start,
            stop: self.stop,
            title: opt_text(self.title),
            desc: opt_text(self.desc),
            in_title: self.in_title,
            in_desc: self.in_desc,
            in_programme: self.in_programme,
            window_start: self.window_start,
            window_end: self.window_end,
        }
    }
}

impl Scanner {
    /// A pass that keeps programmes starting within a week of `now`.
    pub fn new(now: u64) -> (s: Scanner)
        requires
            now <= u64::MAX - 604800,
        ensures
            s@ == scan_start(now),
            keys_distinct(s@.data),
    {
        let s = Scanner {
            entries: Vec::new(),
            channel: None,
            start: 0,
            stop: 0,
            title: None,
            desc: None,
            in_title: false,
            in_desc: false,
            in_programme: false,
            window_start: now.saturating_sub(604800),
            window_end: now + 604800,
        };
        assert(s@.data == Seq::<(Seq<char>, Seq<ProgrammeView>)>::empty());
        s
    }

    fn add(&mut self, id: String, p: Programme)
        requires
            keys_distinct(old(self)@.data),
        ensures
            final(self)@ == (ScanView { data: add_programme(old(self)@.data, id@, p@), ..old(self)@ }),
            keys_distinct(final(self)@.data),
    {
        push_programme(&mut self.entries, id, p);
    }

    fn attr(&mut self, a: &XmlAttr) -> (ok: bool)
        ensures
            ok ==> scan_attr(old(self)@, attr_view(*a)) == Some(final(self)@),
            !ok ==> scan_attr(old(self)@, attr_view(*a)) is None,
            final(self)@.data == old(self)@.data,
    {
        let v = match &a.value {
            Some(v) => v,
            None => return true,
        };
        if same_bytes(&a.key, &vec![115u8, 116, 97, 114, 116]) {
            match parse_xmltv_timestamp_checked(v.as_str()) {
                Some(t) => {
                    self.start = t;
                    true
                },
                None => false,
            }
        } else if same_bytes(&a.key, &vec![115u8, 116, 111, 112]) {
            match parse_xmltv_timestamp_checked(v.as_str()) {
                Some(t) => {
                    self.stop = t;
                    true
                },
                None => false,
            }
        } else if same_bytes(&a.key, &vec![99u8, 104, 97, 110, 110, 101, 108]) {
            let cs = chars_of(v.as_str());
            let t = trim_chars(&cs);
            self.channel = Some(string_of(&t));
            true
        } else {
            true
        }
    }

    fn close(&mut self)
        requires
            keys_distinct(old(self)@.data),
        ensures
            final(self)@ == close_programme(old(self)@),
            keys_distinct(final(self)@.data),
    {
        let ch = self.channel.take();
        let title = self.title.take();
        self.in_programme = false;
        match (ch, title) {
            (Some(ch), Some(t)) => {
                if self.window_start <= self.start && self.start <= self.window_end {
                    let desc = self.desc.take();
                    let p = Programme { title: t, desc, start: self.start, stop: self.stop };
                    self.add(ch, p);
                }
            },
            _ => {},
        }
    }

    /// Takes one event into account. Returns `false`, and leaves the pass
    /// unusable, where a timestamp in it is not accepted.
    pub fn feed(&mut self, ev: &XmlEvent) -> (ok: bool)
        requires
            keys_distinct(old(self)@.data),
        ensures
            ok ==> scan_event(old(self)@, ev@) == Some(final(self)@),
            !ok ==> scan_event(old(self)@, ev@) is None,
            keys_distinct(final(self)@.data),
    {
        match ev {
            XmlEvent::Start { name, attrs } => {
                if same_bytes(name, &vec![112u8, 114, 111, 103, 114, 97, 109, 109, 101]) {
                    self.in_programme = true;
                    self.title = None;
                    self.desc = None;
                    self.channel = None;
                    self.start = 0;
                    self.stop = 0;
                    let ghost av = attrs@.map_values(|a: XmlAttr| attr_view(a));
                    let ghost s0 = self@;
                    assert(scan_event(old(self)@, ev@) == scan_attrs(s0, av));
                    let mut i: usize = 0;
                    assert(av.skip(0) == av);
                    while i < attrs.len()
                        invariant
                            i <= attrs.len(),
                            av == attrs@.map_values(|a: XmlAttr| attr_view(a)),
                            scan_event(old(self)@, ev@) == scan_attrs(s0, av),
                            scan_attrs(s0, av) == scan_attrs(self@, av.skip(i as int)),
                            self@.data == s0.data,
                            keys_distinct(self@.data),
                        decreases attrs.len() - i,
                    {
                        let ghost before = self@;
                        assert(av.skip(i as int)[0] == attr_view(attrs@[i as int]));
                        assert(av.skip(i as int).drop_first() == av.skip(i + 1));
                        if !self.attr(&attrs[i]) {
                            assert(scan_attrs(before, av.skip(i as int)) is None);
                            return false;
                        }
                        i += 1;
                    }
                    assert(av.skip(i as int).len() == 0);
                    true
                } else if same_bytes(name, &vec![116u8, 105, 116, 108, 101]) && self.in_programme {
                    self.in_title = true;
                    true
                } else if same_bytes(name, &vec![100u8, 101, 115, 99]) && self.in_programme {
                    self.in_desc = true;
                    true
                } else {
                    true
                }
            },
            XmlEvent::Text { raw } => {
                match utf8_text(raw.as_slice()) {
                    Some(t) => {
                        let text = match unescape_text(t) {
                            Some(u) => u,
                            None => t.to_owned(),
                        };
                        if self.in_title && self.title.is_none() {
                            self.title = Some(text);
                        } else if self.in_desc && self.desc.is_none() {
                            self.desc = Some(text);
                        }
                    },
                    None => {},
                }
                true
            },
            XmlEvent::End { name } => {
                if same_bytes(name, &vec![116u8, 105, 116, 108, 101]) {
                    self.in_title = false;
                } else if same_bytes(name, &vec![100u8, 101, 115, 99]) {
                    self.in_desc = false;
                } else if same_bytes(name, &vec![112u8, 114, 111, 103, 114, 97, 109, 109, 101])
                    && self.in_programme {
                    self.close();
                }
                true
            },
            _ => true,
        }
    }

    /// The programme guide collected so far, each channel's programmes in
    /// start order.
    pub fn finish(self) -> (d: EpgData)
        requires
            keys_distinct(self@.data),
        ensures
            d@ == sorted_guide(self@.data),
            d.wf(),
    {
        let ghost g = self@.data;
        let mut src = self.entries;
        let n = src.len();
        let mut out: Vec<(String, Vec<Programme>)> = Vec::new();
        let mut k: usize = 0;
        while src.len() > 0
            invariant
                k + src.len() == n,
                n == g.len(),
                src@.map_values(|e: (String, Vec<Programme>)| entry_view(e)) == g.skip(k as int),
                out@.map_values(|e: (String, Vec<Programme>)| entry_view(e)) == sorted_guide(g.take(k as int)),
            decreases src.len(),
        {
            let ghost before = src@;
            let entry = src.remove(0);
            assert(src@.map_values(|e: (String, Vec<Programme>)| entry_view(e)) =~= before.map_values(|e: (String, Vec<Programme>)| entry_view(e)).drop_first());
            assert(g.skip(k as int).drop_first() =~= g.skip(k + 1));
            assert(entry_view(entry) == g[k as int]) by {
                assert(before.map_values(|e: (String, Vec<Programme>)| entry_view(e))[0] == g.skip(k as int)[0]);
            }
            let (key, list) = entry;
            let sorted = sort_programmes(list);
            let ghost prev = out@;
            out.push((key, sorted));
            assert(g.take(k + 1) =~= g.take(k as int).push(g[k as int]));
            assert(sorted_guide(g.take(k + 1)) =~= sorted_guide(g.take(k as int)).push((g[k as int].0, sort_by_start(g[k as int].1))));
            assert(out@.map_values(|e: (String, Vec<Programme>)| entry_view(e)) =~= prev.map_values(|e: (String, Vec<Programme>)| entry_view(e)).push(entry_view((key, sorted))));
            k += 1;
        }
        assert(g.take(k as int) == g);
        let d = EpgData { entries: out };
        assert(d@ == sorted_guide(g));
        d
    }
}

/// The guide that the events `evs` describe, each channel's programmes in
/// start order; `None` where a timestamp in them is not one that
/// `parse_xmltv_timestamp` accepts.
pub open spec fn guide_of_events(evs: Seq<XmlEventView>, now: u64) -> Option<GuideView> {
    match scan_events(scan_start(now), evs) {
        Some(st) => Some(sorted_guide(st.data)),
        None => None,
    }
}

/// Why programme guide data could not be built.
#[derive(Debug, Clone, Copy, PartialEq, Eq, Structural)]
pub enum EpgError {
    /// A `start` or `stop` attribute holds a timestamp that
    /// `parse_xmltv_timestamp` does not accept.
    BadTimestamp,
    /// The clock is so far in the future that the window after it overflows.
    ClockOutOfRange,
}

/// The guide that a sequence of XML events describes.
pub fn epg_from_events(events: &Vec<XmlEvent>, now: u64) -> (r: Result<EpgData, EpgError>)
    requires
        now <= u64::MAX - 604800,
    ensures
        match guide_of_events(events@.map_values(|e: XmlEvent| e@), now) {
            Some(g) => r matches Ok(d) && d@ == g && d.wf(),
            None => r == Err::<EpgData, EpgError>(EpgError::BadTimestamp),
        },
{
    let ghost evs = events@.map_values(|e: XmlEvent| e@);
    let mut sc = Scanner::new(now);
    let mut i: usize = 0;
    let mut stop = false;
    assert(evs.skip(0) == evs);
    while i < events.len() && !stop
        invariant
            i <= events.len(),
            evs == events@.map_values(|e: XmlEvent| e@),
            keys_distinct(sc@.data),
            stop ==> scan_events(scan_start(now), evs) == Some(sc@),
            !stop ==> scan_events(scan_start(now), evs) == scan_events(sc@, evs.skip(i as int)),
        decreases events.len() - i, (if stop { 0int } else { 1int }),
    {
        assert(evs.skip(i as int)[0] == events@[i as int]@);
        assert(evs.skip(i as int).drop_first() == evs.skip(i + 1));
        match &events[i] {
            XmlEvent::Eof | XmlEvent::Error => {
                stop = true;
            },
            _ => {
                if !sc.feed(&events[i]) {
                    return Err(EpgError::BadTimestamp);
                }
                i += 1;
            },
        }
    }
    if !stop {
        assert(evs.skip(i as int).len() == 0);
    }
    Ok(sc.finish())
}

// ─── Reading XML ─────────────────────────────────────────────────────────────

/// An XML event as the reader gives it: a start tag with its name and its
/// attributes' names and raw (still escaped) values, an end tag, raw text,
/// or another kind of event.
pub enum XmlToken {
    Start(Vec<u8>, Vec<(Vec<u8>, Vec<u8>)>),
    End(Vec<u8>),
    Text(Vec<u8>),
    Other,
}

pub enum XmlTokenView {
    Start(Seq<u8>, Seq<(Seq<u8>, Seq<u8>)>),
    End(Seq<u8>),
    Text(Seq<u8>),
    Other,
}

impl View for XmlToken {
    type V = XmlTokenView;

    open spec fn view(&self) -> XmlTokenView {
        match self {
            XmlToken::Start(name, attrs) => XmlTokenView::Start(
                name@,
                attrs@.map_values(|a: (Vec<u8>, Vec<u8>)| (a.0@, a.1@)),
            ),
            XmlToken::End(name) => XmlTokenView::End(name@),
            XmlToken::Text(raw) => XmlTokenView::Text(raw@),
            XmlToken::Other => XmlTokenView::Other,
        }
    }
}

/// Name for the events that a `quick_xml::Reader` made by `Reader::from_str`
/// over `xml`, with white space around text trimmed, yields before the end
/// of input or the first error.
pub uninterp spec fn xml_tokens(xml: Seq<char>) -> Seq<XmlTokenView>;

/// Trusted: reads the events of `xml` with `quick_xml::Reader::from_str`,
/// `Config::trim_text(true)` and `Reader::read_event` (which runs the same
/// parser as `read_event_into`, borrowing from the input in place of a
/// buffer) until the end of input or an error, each converted to plain
/// values; attributes that do not parse are skipped. The reader's state is
/// the document and its position in it, so the events depend on `xml`
/// alone; this crate calls them `xml_tokens`.
#[verifier::external_body]
fn read_xml_tokens(xml: &str) -> (ts: Vec<XmlToken>)
    ensures
        ts@.map_values(|t: XmlToken| t@) == xml_tokens(xml@),
{
    let mut r = quick_xml::Reader::from_str(xml);
    r.config_mut().trim_text(true);
    let mut ts = Vec::new();
    loop {
        ts.push(match r.read_event() {
            Ok(Event::Start(e)) => XmlToken::Start(e.name().0.to_vec(), e.attributes().flatten().map(|a| (a.key.0.to_vec(), a.value.to_vec())).collect()),
            Ok(Event::End(e)) => XmlToken::End(e.name().0.to_vec()),
            Ok(Event::Text(e)) => XmlToken::Text(e.to_vec()),
            Ok(Event::Eof) | Err(_) => return ts,
            Ok(_) => XmlToken::Other,
        });
    }
}

/// An attribute value: its bytes decoded as UTF-8 and unescaped, as
/// `Attribute::unescape_value` does; `None` where either step fails.
pub open spec fn attr_text(raw: Seq<u8>) -> Option<Seq<char>> {
    if valid_utf8(raw) {
        xml_unescaped(decode_utf8(raw))
    } else {
        None
    }
}

/// The event a token stands for, attribute values decoded.
pub open spec fn token_event(t: XmlTokenView) -> XmlEventView {
    match t {
        XmlTokenView::Start(name, attrs) => XmlEventView::Start {
            name: name,
            attrs: attrs.map_values(|a: (Seq<u8>, Seq<u8>)| (a.0, attr_text(a.1))),
        },
        XmlTokenView::End(name) => XmlEventView::End { name: name },
        XmlTokenView::Text(raw) => XmlEventView::Text { raw: raw },
        XmlTokenView::Other => XmlEventView::Other,
    }
}

/// The events of an XML document, attribute values decoded.
pub open spec fn document_events(xml: Seq<char>) -> Seq<XmlEventView> {
    xml_tokens(xml).map_values(|t: XmlTokenView| token_event(t))
}

fn attr_value(raw: &Vec<u8>) -> (r: Option<String>)
    ensures
        opt_text(r) == attr_text(raw@),
{
    match utf8_text(raw.as_slice()) {
        Some(s) => unescape_text(s),
        None => None,
    }
}

fn event_of_token(t: &XmlToken) -> (e: XmlEvent)
    ensures
        e@ == token_event(t@),
{
    match t {
        XmlToken::Start(name, attrs) => {
            let mut out: Vec<XmlAttr> = Vec::new();
            let mut i: usize = 0;
            while i < attrs.len()
                invariant
                    i <= attrs@.len(),
                    out@.len() == i,
                    forall|j: int| 0 <= j < i ==> #[trigger] attr_view(out@[j]) == (
                        attrs@[j].0@,
                        attr_text(attrs@[j].1@),
                    ),
                decreases attrs@.len() - i,
            {
                out.push(XmlAttr { key: attrs[i].0.clone(), value: attr_value(&attrs[i].1) });
                i += 1;
            }
            let e = XmlEvent::Start { name: name.clone(), attrs: out };
            assert(out@.map_values(|a: XmlAttr| attr_view(a)) =~= attrs@.map_values(
                |a: (Vec<u8>, Vec<u8>)| (a.0@, a.1@),
            ).map_values(|a: (Seq<u8>, Seq<u8>)| (a.0, attr_text(a.1))));
            e
        },
        XmlToken::End(name) => XmlEvent::End { name: name.clone() },
        XmlToken::Text(raw) => XmlEvent::Text { raw: raw.clone() },
        XmlToken::Other => XmlEvent::Other,
    }
}

/// The events of `xml`, read and decoded.
fn document_events_of(xml: &str) -> (evs: Vec<XmlEvent>)
    ensures
        evs@.map_values(|e: XmlEvent| e@) == document_events(xml@),
{
    let ts = read_xml_tokens(xml);
    let ghost tv = ts@.map_values(|t: XmlToken| t@);
    let mut evs: Vec<XmlEvent> = Vec::new();
    let mut i: usize = 0;
    while i < ts.len()
        invariant
            i <= ts@.len(),
            tv == ts@.map_values(|t: XmlToken| t@),
            evs@.len() == i,
            forall|j: int| 0 <= j < i ==> #[trigger] evs@[j]@ == token_event(tv[j]),
        decreases ts@.len() - i,
    {
        evs.push(event_of_token(&ts[i]));
        i += 1;
    }
    assert(evs@.map_values(|e: XmlEvent| e@) =~= document_events(xml@));
    evs
}

/// Trusted: the current UNIX time in seconds from `SystemTime::now`
/// (0 when the clock is before the epoch); nothing is stated of its value.
#[verifier::external_body]
pub(crate) fn unix_now() -> u64 {
    std::time::SystemTime::now().duration_since(std::time::UNIX_EPOCH).unwrap_or_default().as_secs()
}

/// What parsing `xml` gives when the clock reads `now`: `ClockOutOfRange`
/// when the week after `now` does not fit, else what `epg_from_events`
/// gives for the document's events.
pub open spec fn xmltv_outcome(r: Result<EpgData, EpgError>, xml: Seq<char>, now: u64) -> bool {
    if now > u64::MAX - 604800 {
        r == Err::<EpgData, EpgError>(EpgError::ClockOutOfRange)
    } else {
        match guide_of_events(document_events(xml), now) {
            Some(g) => r matches Ok(d) && d@ == g && d.wf(),
            None => r == Err::<EpgData, EpgError>(EpgError::BadTimestamp),
        }
    }
}

/// Parses an XMLTV document into programme guide data, keeping programmes
/// that start within a week of the current time.
pub fn parse_xmltv(xml: &str) -> (r: Result<EpgData, EpgError>)
    ensures
        exists|now: u64| #[trigger] xmltv_outcome(r, xml@, now),
{
    let now = unix_now();
    if now > u64::MAX - 604800 {
        let r = Err(EpgError::ClockOutOfRange);
        assert(xmltv_outcome(r, xml@, now));
        return r;
    }
    let events = document_events_of(xml);
    let r = epg_from_events(&events, now);
    assert(xmltv_outcome(r, xml@, now));
    r
}

// ─── Now and next ────────────────────────────────────────────────────────────

/// A channel id compared loosely: the part before its last `@` (a quality
/// suffix such as "@HD"), in lowercase.
pub open spec fn normalised_id(s: Seq<char>) -> Seq<char> {
    let at = last_index_of(s, '@');
    unicode_lowercase(
        if at < 0 {
            s
        } else {
            s.take(at)
        },
    )
}

/// A guide key that matches `id` without case, or once both lose their suffix.
pub open spec fn loosely_matches(key: Seq<char>, id: Seq<char>) -> bool {
    unicode_lowercase(key) == unicode_lowercase(id) || normalised_id(key) == normalised_id(id)
}

/// The channel of the guide that `id` names: the one with exactly that id,
/// else the first that matches it loosely, or -1.
pub open spec fn channel_index(g: GuideView, id: Seq<char>) -> int {
    let k = key_index(g, id);
    if k >= 0 {
        k
    } else {
        first_index(g, |e: (Seq<char>, Seq<ProgrammeView>)| loosely_matches(e.0, id))
    }
}

/// The programme on at `now`, and the one after it: the programme after the
/// current one when there is one, else the first that starts after `now`.
pub open spec fn now_next_of(ps: Seq<ProgrammeView>, now: u64) -> (Option<ProgrammeView>, Option<ProgrammeView>) {
    let i = first_index(ps, |p: ProgrammeView| p.start <= now && p.stop > now);
    let cur = if i >= 0 {
        Some(ps[i])
    } else {
        None
    };
    let after = first_index(ps, |p: ProgrammeView| p.start > now);
    let nxt = if i >= 0 && i + 1 < ps.len() {
        Some(ps[i + 1])
    } else if after >= 0 {
        Some(ps[after])
    } else {
        None
    };
    (cur, nxt)
}

/// Now and next of channel `id` at time `now`; nothing for an unknown channel.
pub open spec fn now_and_next_of(g: GuideView, id: Seq<char>, now: u64) -> (Option<ProgrammeView>, Option<ProgrammeView>) {
    let c = channel_index(g, id);
    if c < 0 {
        (None, None)
    } else {
        now_next_of(g[c].1, now)
    }
}

pub open spec fn opt_programme(o: Option<&Programme>) -> Option<ProgrammeView> {
    match o {
        Some(p) => Some(p@),
        None => None,
    }
}

fn normalise(s: &str) -> (r: String)
    ensures
        r@ == normalised_id(s@),
{
    let cs = chars_of(s);
    match rfind_char(&cs, '@') {
        Some(at) => {
            let head = copy_range(&cs, 0, at);
            assert(head@ == cs@.take(at as int));
            let h = string_of(&head);
            to_lowercase(h.as_str())
        },
        None => to_lowercase(s),
    }
}

impl EpgData {
    /// The index of the channel that `id` names.
    fn lookup(&self, id: &str) -> (r: Option<usize>)
        ensures
            channel_index(self@, id@) == (match r {
                Some(i) => i as int,
                None => -1,
            }),
            r matches Some(i) ==> i < self@.len(),
    {
        if let Some(i) = self.find(id) {
            return Some(i);
        }
        let ghost pred = |e: (Seq<char>, Seq<ProgrammeView>)| loosely_matches(e.0, id@);
        let id_lower = to_lowercase(id);
        let id_norm = normalise(id);
        let mut i: usize = 0;
        while i < self.entries.len()
            invariant
                i <= self@.len(),
                self@.len() == self.entries@.len(),
                id_lower@ == unicode_lowercase(id@),
                id_norm@ == normalised_id(id@),
                pred == (|e: (Seq<char>, Seq<ProgrammeView>)| loosely_matches(e.0, id@)),
                key_index(self@, id@) < 0,
                forall|j: int| 0 <= j < i ==> !pred(#[trigger] self@[j]),
            decreases self.entries@.len() - i,
        {
            let key = self.entries[i].0.as_str();
            assert(key@ == self@[i as int].0);
            if to_lowercase(key) == id_lower || normalise(key) == id_norm {
                assert(pred(self@[i as int]));
                proof {
                    lemma_first_index(self@, pred, i as int);
                }
                return Some(i);
            }
            i += 1;
        }
        proof {
            lemma_first_index(self@, pred, self@.len() as int);
        }
        None
    }
}

fn now_next_in(ps: &Vec<Programme>, now: u64) -> (r: (Option<&Programme>, Option<&Programme>))
    ensures
        (opt_programme(r.0), opt_programme(r.1)) == now_next_of(programmes_view(ps@), now),
{
    let ghost pv = programmes_view(ps@);
    let ghost on_now = |p: ProgrammeView| p.start <= now && p.stop > now;
    let ghost later = |p: ProgrammeView| p.start > now;
    let mut i: usize = 0;
    while i < ps.len() && !(ps[i].start <= now && ps[i].stop > now)
        invariant
            i <= ps.len(),
            pv == programmes_view(ps@),
            on_now == (|p: ProgrammeView| p.start <= now && p.stop > now),
            forall|j: int| 0 <= j < i ==> !on_now(#[trigger] pv[j]),
        decreases ps.len() - i,
    {
        assert(pv[i as int] == ps@[i as int]@);
        i += 1;
    }
    proof {
        lemma_first_index(pv, on_now, i as int);
    }
    let cur = if i < ps.len() {
        Some(&ps[i])
    } else {
        None
    };
    if i < ps.len() && i + 1 < ps.len() {
        return (cur, Some(&ps[i + 1]));
    }
    let mut j: usize = 0;
    while j < ps.len() && !(ps[j].start > now)
        invariant
            j <= ps.len(),
            pv == programmes_view(ps@),
            later == (|p: ProgrammeView| p.start > now),
            forall|k: int| 0 <= k < j ==> !later(#[trigger] pv[k]),
        decreases ps.len() - j,
    {
        assert(pv[j as int] == ps@[j as int]@);
        j += 1;
    }
    proof {
        lemma_first_index(pv, later, j as int);
    }
    let nxt = if j < ps.len() {
        Some(&ps[j])
    } else {
        None
    };
    (cur, nxt)
}

/// The programme on now and the next one for channel `tvg_id`, at time `now`.
pub fn now_and_next_at<'a>(data: &'a EpgData, tvg_id: &str, now: u64) -> (r: (Option<&'a Programme>, Option<&'a Programme>))
    ensures
        (opt_programme(r.0), opt_programme(r.1)) == now_and_next_of(data@, tvg_id@, now),
{
    match data.lookup(tvg_id) {
        Some(c) => {
            assert(programmes_view(data.entries@[c as int].1@) == data@[c as int].1);
            now_next_in(&data.entries[c].1, now)
        },
        None => (None, None),
    }
}

/// The programme on now and the next one for channel `tvg_id`, at the
/// current time.
pub fn now_and_next<'a>(data: &'a EpgData, tvg_id: &str) -> (r: (Option<&'a Programme>, Option<&'a Programme>))
    ensures
        exists|now: u64| (opt_programme(r.0), opt_programme(r.1)) == now_and_next_of(data@, tvg_id@, now),
{
    let now = unix_now();
    now_and_next_at(data, tvg_id, now)
}

// ─── Laws ────────────────────────────────────────────────────────────────────

/// Programmes in start order.
pub open spec fn starts_sorted(ps: Seq<ProgrammeView>) -> bool {
    forall|i: int, j: int| 0 <= i < j < ps.len() ==> ps[i].start <= ps[j].start
}

/// Every programme starts within `[lo, hi]`.
pub open spec fn starts_within(ps: Seq<ProgrammeView>, lo: u64, hi: u64) -> bool {
    forall|i: int| 0 <= i < ps.len() ==> lo <= #[trigger] ps[i].start <= hi
}

proof fn lemma_insert_sorted(s: Seq<ProgrammeView>, p: ProgrammeView)
    requires
        starts_sorted(s),
    ensures
        starts_sorted(insert_by_start(s, p)),
        insert_by_start(s, p).to_multiset() =~= s.to_multiset().insert(p),
        forall|lo: u64, hi: u64| starts_within(s, lo, hi) && lo <= p.start <= hi ==> starts_within(
            #[trigger] insert_by_start(s, p),
            lo,
            hi,
        ),
        insert_by_start(s, p).len() == s.len() + 1,
    decreases s.len(),
{
    broadcast use vstd::seq_lib::group_to_multiset_ensures;

    if s.len() == 0 {
        assert(insert_by_start(s, p) == seq![p]);
        assert(seq![p] == s.push(p));
    } else if s.last().start <= p.start {
    } else {
        let init = s.drop_last();
        let r = insert_by_start(init, p);
        lemma_insert_sorted(init, p);
        assert(starts_within(init, 0, s.last().start)) by {
            assert forall|i: int| 0 <= i < init.len() implies 0 <= #[trigger] init[i].start <= s.last().start by {
                assert(init[i] == s[i]);
            }
        }
        assert(starts_within(r, 0, s.last().start));
        assert(s == init.push(s.last()));
        assert forall|lo: u64, hi: u64| starts_within(s, lo, hi) && lo <= p.start <= hi implies starts_within(
            #[trigger] insert_by_start(s, p),
            lo,
            hi,
        ) by {
            assert(starts_within(init, lo, hi)) by {
                assert forall|i: int| 0 <= i < init.len() implies lo <= #[trigger] init[i].start <= hi by {
                    assert(init[i] == s[i]);
                }
            }
        }
    }
}

proof fn lemma_sort_by_start(ps: Seq<ProgrammeView>)
    ensures
        starts_sorted(sort_by_start(ps)),
        sort_by_start(ps).to_multiset() =~= ps.to_multiset(),
        sort_by_start(ps).len() == ps.len(),
        forall|lo: u64, hi: u64| starts_within(ps, lo, hi) ==> starts_within(#[trigger] sort_by_start(ps), lo, hi),
    decreases ps.len(),
{
    broadcast use vstd::seq_lib::group_to_multiset_ensures;

    if ps.len() > 0 {
        let init = ps.drop_last();
        lemma_sort_by_start(init);
        lemma_insert_sorted(sort_by_start(init), ps.last());
        assert(ps == init.push(ps.last()));
        assert forall|lo: u64, hi: u64| starts_within(ps, lo, hi) implies starts_within(
            #[trigger] sort_by_start(ps),
            lo,
            hi,
        ) by {
            assert(starts_within(init, lo, hi)) by {
                assert forall|i: int| 0 <= i < init.len() implies lo <= #[trigger] init[i].start <= hi by {
                    assert(init[i] == ps[i]);
                }
            }
            assert(starts_within(sort_by_start(init), lo, hi));
            assert(lo <= ps[ps.len() - 1].start <= hi);
        }
    }
}

/// Sorting programmes by start puts them in start order, keeps every
/// programme (as often as it occurs) and keeps programmes that start
/// together in their order.
pub proof fn sorting_orders_and_keeps_programmes(ps: Seq<ProgrammeView>)
    ensures
        starts_sorted(sort_by_start(ps)),
        sort_by_start(ps).to_multiset() =~= ps.to_multiset(),
        starts_sorted(ps) ==> sort_by_start(ps) == ps,
    decreases ps.len(),
{
    lemma_sort_by_start(ps);
    if starts_sorted(ps) && ps.len() > 0 {
        let init = ps.drop_last();
        assert(starts_sorted(init)) by {
            assert forall|i: int, j: int| 0 <= i < j < init.len() implies init[i].start <= init[j].start by {
                assert(init[i] == ps[i] && init[j] == ps[j]);
            }
        }
        sorting_orders_and_keeps_programmes(init);
        if init.len() > 0 {
            assert(init.last() == ps[ps.len() - 2]);
        }
        assert(init.push(ps.last()) == ps);
    }
}

/// Every channel's programmes in a guide, within `[lo, hi]`.
pub open spec fn guide_within(g: GuideView, lo: u64, hi: u64) -> bool {
    forall|c: int| 0 <= c < g.len() ==> starts_within(#[trigger] g[c].1, lo, hi)
}

proof fn lemma_add_within(g: GuideView, id: Seq<char>, p: ProgrammeView, lo: u64, hi: u64)
    requires
        guide_within(g, lo, hi),
        lo <= p.start <= hi,
    ensures
        guide_within(add_programme(g, id, p), lo, hi),
{
    let i = key_index(g, id);
    lemma_key_index_found(g, id);
    if i >= 0 {
        let r = add_programme(g, id, p);
        assert forall|c: int| 0 <= c < r.len() implies starts_within(#[trigger] r[c].1, lo, hi) by {
            if c == i {
                let ps = g[i].1.push(p);
                assert forall|k: int| 0 <= k < ps.len() implies lo <= #[trigger] ps[k].start <= hi by {
                    if k < g[i].1.len() {
                        assert(ps[k] == g[i].1[k]);
                        assert(starts_within(g[i].1, lo, hi));
                    }
                }
            }
        }
    } else {
        let r = add_programme(g, id, p);
        assert forall|c: int| 0 <= c < r.len() implies starts_within(#[trigger] r[c].1, lo, hi) by {
            if c == g.len() {
                let ps = seq![p];
                assert forall|k: int| 0 <= k < ps.len() implies lo <= #[trigger] ps[k].start <= hi by {}
            } else {
                assert(r[c] == g[c]);
            }
        }
    }
}

proof fn lemma_scan_attrs_keeps(st: ScanView, attrs: Seq<(Seq<u8>, Option<Seq<char>>)>)
    ensures
        scan_attrs(st, attrs) matches Some(s2) ==> s2.data == st.data && s2.window_start
            == st.window_start && s2.window_end == st.window_end,
    decreases attrs.len(),
{
    if attrs.len() > 0 {
        match scan_attr(st, attrs[0]) {
            Some(s1) => lemma_scan_attrs_keeps(s1, attrs.drop_first()),
            None => {},
        }
    }
}

proof fn lemma_scan_event_within(st: ScanView, ev: XmlEventView)
    requires
        guide_within(st.data, st.window_start, st.window_end),
    ensures
        scan_event(st, ev) matches Some(s2) ==> s2.window_start == st.window_start && s2.window_end
            == st.window_end && guide_within(s2.data, st.window_start, st.window_end),
{
    match ev {
        XmlEventView::Start { name, attrs } => {
            if name == programme_tag() {
                lemma_scan_attrs_keeps(
                    ScanView {
                        in_programme: true,
                        title: None,
                        desc: None,
                        channel: None,
                        start: 0,
                        stop: 0,
                        ..st
                    },
                    attrs,
                );
            }
        },
        XmlEventView::End { name } => {
            if name != title_tag() && name != desc_tag() && name == programme_tag() && st.in_programme {
                match (st.channel, st.title) {
                    (Some(ch), Some(t)) => {
                        if st.window_start <= st.start && st.start <= st.window_end {
                            lemma_add_within(
                                st.data,
                                ch,
                                ProgrammeView { title: t, desc: st.desc, start: st.start, stop: st.stop },
                                st.window_start,
                                st.window_end,
                            );
                        }
                    },
                    _ => {},
                }
            }
        },
        _ => {},
    }
}

proof fn lemma_scan_events_within(st: ScanView, evs: Seq<XmlEventView>)
    requires
        guide_within(st.data, st.window_start, st.window_end),
    ensures
        scan_events(st, evs) matches Some(s2) ==> guide_within(s2.data, st.window_start, st.window_end),
    decreases evs.len(),
{
    if evs.len() > 0 {
        match evs[0] {
            XmlEventView::Eof | XmlEventView::Error => {},
            _ => {
                lemma_scan_event_within(st, evs[0]);
                match scan_event(st, evs[0]) {
                    Some(s1) => lemma_scan_events_within(s1, evs.drop_first()),
                    None => {},
                }
            },
        }
    }
}

/// Programmes are kept only when they start within a week of the time of
/// reading, and each channel's programmes come in start order.
pub proof fn guide_keeps_the_week_in_order(evs: Seq<XmlEventView>, now: u64)
    requires
        now <= u64::MAX - 604800,
    ensures
        guide_of_events(evs, now) matches Some(g) ==> forall|c: int| 0 <= c < g.len() ==> {
            &&& starts_within(
                #[trigger] g[c].1,
                (if now >= 604800 { now - 604800 } else { 0 }) as u64,
                (now + 604800) as u64,
            )
            &&& starts_sorted(g[c].1)
        },
{
    let st = scan_start(now);
    assert(guide_within(st.data, st.window_start, st.window_end));
    lemma_scan_events_within(st, evs);
    match scan_events(st, evs) {
        Some(s2) => {
            let g = sorted_guide(s2.data);
            assert forall|c: int| 0 <= c < g.len() implies {
                &&& starts_within(#[trigger] g[c].1, st.window_start, (now + 604800) as u64)
                &&& starts_sorted(g[c].1)
            } by {
                lemma_sort_by_start(s2.data[c].1);
                assert(starts_within(s2.data[c].1, st.window_start, st.window_end));
            }
        },
        None => {},
    }
}

proof fn lemma_first_index_holds<A>(s: Seq<A>, p: spec_fn(A) -> bool)
    ensures
        first_index(s, p) < s.len(),
        first_index(s, p) >= 0 ==> p(s[first_index(s, p)]),
        forall|j: int| 0 <= j < s.len() && (first_index(s, p) < 0 || j < first_index(s, p)) ==> !p(#[trigger] s[j]),
    decreases s.len(),
{
    if s.len() > 0 && !p(s[0]) {
        lemma_first_index_holds(s.drop_first(), p);
        assert forall|j: int| 0 <= j < s.len() && (first_index(s, p) < 0 || j < first_index(s, p)) implies !p(
            #[trigger] s[j],
        ) by {
            if j > 0 {
                assert(s[j] == s.drop_first()[j - 1]);
            }
        }
    }
}

/// A programme is on at `now`.
pub open spec fn on_at(p: ProgrammeView, now: u64) -> bool {
    p.start <= now && now < p.stop
}

/// Programme `ps[i]` is the first of the list that is on at `now`.
pub open spec fn first_on(ps: Seq<ProgrammeView>, now: u64, i: int) -> bool {
    &&& 0 <= i < ps.len()
    &&& on_at(ps[i], now)
    &&& forall|j: int| 0 <= j < i ==> !on_at(#[trigger] ps[j], now)
}

/// Programme `ps[k]` is the first of the list that starts after `now`.
pub open spec fn first_after(ps: Seq<ProgrammeView>, now: u64, k: int) -> bool {
    &&& 0 <= k < ps.len()
    &&& ps[k].start > now
    &&& forall|j: int| 0 <= j < k ==> !(#[trigger] ps[j].start > now)
}

/// The programme given as on now is the first one of the list that is on
/// at `now`, and there is none exactly when no programme is on. The next
/// one is the programme after the current one in the list; when nothing is
/// on, or the current one is the last, it is the first programme of the
/// list that starts after `now`, and there is none when no programme does.
pub proof fn now_and_next_fit_the_time(ps: Seq<ProgrammeView>, now: u64)
    ensures
        now_next_of(ps, now).0 matches Some(c) ==> c.start <= now && now < c.stop,
        now_next_of(ps, now).0 is None ==> (now_next_of(ps, now).1 matches Some(n) ==> n.start > now),
        now_next_of(ps, now).0 is None ==> forall|i: int| 0 <= i < ps.len() ==> !(#[trigger] ps[i].start <= now && ps[i].stop > now),
        (forall|i: int| 0 <= i < ps.len() ==> !on_at(#[trigger] ps[i], now)) ==> now_next_of(ps, now).0 is None,
        forall|i: int| #[trigger] first_on(ps, now, i) ==> {
            &&& now_next_of(ps, now).0 == Some(ps[i])
            &&& i + 1 < ps.len() ==> now_next_of(ps, now).1 == Some(ps[i + 1])
        },
        forall|k: int| #[trigger] first_after(ps, now, k) ==> (now_next_of(ps, now).0 is None || now_next_of(
            ps,
            now,
        ).0 == Some(ps.last()) && first_on(ps, now, ps.len() - 1)) ==> now_next_of(ps, now).1 == Some(ps[k]),
        (forall|k: int| 0 <= k < ps.len() ==> !(#[trigger] ps[k].start > now)) && now_next_of(ps, now).0 is None
            ==> now_next_of(ps, now).1 is None,
{
    let on = |p: ProgrammeView| p.start <= now && p.stop > now;
    let later = |p: ProgrammeView| p.start > now;
    lemma_first_index_holds(ps, on);
    lemma_first_index_holds(ps, later);
    assert forall|i: int| #[trigger] first_on(ps, now, i) implies {
        &&& now_next_of(ps, now).0 == Some(ps[i])
        &&& i + 1 < ps.len() ==> now_next_of(ps, now).1 == Some(ps[i + 1])
    } by {
        assert forall|j: int| 0 <= j < i implies !on(#[trigger] ps[j]) by {
            assert(!on_at(ps[j], now));
        }
        lemma_first_index(ps, on, i);
    }
    assert forall|k: int| #[trigger] first_after(ps, now, k) implies (now_next_of(ps, now).0 is None
        || now_next_of(ps, now).0 == Some(ps.last()) && first_on(ps, now, ps.len() - 1)) ==> now_next_of(
        ps,
        now,
    ).1 == Some(ps[k]) by {
        assert forall|j: int| 0 <= j < k implies !later(#[trigger] ps[j]) by {
            assert(!(ps[j].start > now));
        }
        lemma_first_index(ps, later, k);
        if now_next_of(ps, now).0 is None {
            assert(first_index(ps, on) < 0);
        } else if first_on(ps, now, ps.len() - 1) {
            assert forall|j: int| 0 <= j < ps.len() - 1 implies !on(#[trigger] ps[j]) by {
                assert(!on_at(ps[j], now));
            }
            lemma_first_index(ps, on, ps.len() - 1);
        }
    }
    if forall|i: int| 0 <= i < ps.len() ==> !on_at(#[trigger] ps[i], now) {
        assert forall|j: int| 0 <= j < ps.len() implies !on(#[trigger] ps[j]) by {
            assert(!on_at(ps[j], now));
        }
        lemma_first_index(ps, on, ps.len() as int);
    }
    if (forall|k: int| 0 <= k < ps.len() ==> !(#[trigger] ps[k].start > now)) {
        assert forall|j: int| 0 <= j < ps.len() implies !later(#[trigger] ps[j]) by {
            assert(!(ps[j].start > now));
        }
        lemma_first_index(ps, later, ps.len() as int);
    }
}

/// In a pass begun at time `now`, the end of a `programme` element that
/// has a channel and a title keeps the programme (appended to its channel)
/// when it starts no more than a week before or after `now`, and drops it
/// otherwise.
pub proof fn programmes_within_the_week_are_kept(
    now: u64,
    g: GuideView,
    ch: Seq<char>,
    t: Seq<char>,
    d: Option<Seq<char>>,
    s: u64,
    e: u64,
)
    requires
        now <= u64::MAX - 604800,
    ensures
        ({
            let st = ScanView {
                data: g,
                channel: Some(ch),
                title: Some(t),
                desc: d,
                start: s,
                stop: e,
                in_programme: true,
                ..scan_start(now)
            };
            let kept = now - 604800 <= s && s <= now + 604800;
            &&& scan_event(st, XmlEventView::End { name: programme_tag() }) matches Some(st2)
            &&& kept ==> st2.data == add_programme(g, ch, ProgrammeView { title: t, desc: d, start: s, stop: e })
            &&& !kept ==> st2.data == g
        }),
{
    reveal_with_fuel(scan_event, 1);
    assert(programme_tag() != title_tag());
    assert(programme_tag() != desc_tag());
}

} // verus!
