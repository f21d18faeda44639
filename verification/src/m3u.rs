//! M3U playlists: channel entries and the attributes of `#EXTINF` lines.
use vstd::prelude::*;
use crate::text::{
    chars_of, contains, contains_chars, copy_range, find_char, index_of, last_index_of, rfind_char,
    starts_with, starts_with_chars, string_of, to_lowercase, trim, trim_bounds, trimmed_lines,
    lines_trimmed, unicode_lowercase, occurs_at_ignore_case, matches_at_ignore_case,
    trim_start, trim_end, is_white_space, eq_ignore_ascii_case, ascii_lower, split_lines,
    lemma_split_lines_append, lemma_index_of,
};

verus! {

/// What a channel offers, as guessed from its group title.
#[derive(Debug, Clone, Copy, PartialEq, Eq, Structural)]
pub enum ContentType {
    Live,
    Movie,
    Series,
}

/// One playable entry of a playlist.
#[derive(Debug, Clone)]
pub struct Channel {
    pub name: String,
    pub url: String,
    pub group: String,
    pub logo: Option<String>,
    pub tvg_id: Option<String>,
    pub content_type: ContentType,
}

/// A channel as plain character sequences.
pub struct ChannelView {
    pub name: Seq<char>,
    pub url: Seq<char>,
    pub group: Seq<char>,
    pub logo: Option<Seq<char>>,
    pub tvg_id: Option<Seq<char>>,
    pub content_type: ContentType,
}

/// The characters of an optional string.
pub open spec fn opt_chars(o: Option<String>) -> Option<Seq<char>> {
    match o {
        Some(s) => Some(s@),
        None => None,
    }
}

impl View for Channel {
    type V = ChannelView;

    open spec fn view(&self) -> ChannelView {
        ChannelView {
            name: self.name@,
            url: self.url@,
            group: self.group@,
            logo: opt_chars(self.logo),
            tvg_id: opt_chars(self.tvg_id),
            content_type: self.content_type,
        }
    }
}

/// The views of a list of channels.
pub open spec fn channels_view(cs: Seq<Channel>) -> Seq<ChannelView> {
    cs.map_values(|c: Channel| c@)
}

/// The group under which a channel is listed.
pub open spec fn display_group_of(group: Seq<char>) -> Seq<char> {
    if group.len() == 0 {
        "Uncategorized"@
    } else {
        group
    }
}

fn clone_opt(o: &Option<String>) -> (r: Option<String>)
    ensures
        opt_chars(r) == opt_chars(*o),
{
    match o {
        Some(s) => Some(s.clone()),
        None => None,
    }
}

impl Channel {
    /// The group title, or "Uncategorized" when it is empty.
    pub fn display_group(&self) -> (g: &str)
        ensures
            g@ == display_group_of(self.group@),
    {
        if self.group.as_str().is_empty() {
            "Uncategorized"
        } else {
            self.group.as_str()
        }
    }

    /// A copy of this channel with the same view.
    pub fn duplicate(&self) -> (c: Channel)
        ensures
            c@ == self@,
    {
        Channel {
            name: self.name.clone(),
            url: self.url.clone(),
            group: self.group.clone(),
            logo: clone_opt(&self.logo),
            tvg_id: clone_opt(&self.tvg_id),
            content_type: self.content_type,
        }
    }
}

// ─── Content type ────────────────────────────────────────────────────────────

/// Group titles that name series.
pub open spec fn names_series(g: Seq<char>) -> bool {
    ||| contains(g, "serie"@)
    ||| contains(g, "season"@)
    ||| contains(g, "episode"@)
    ||| contains(g, "show"@)
    ||| contains(g, "tvshow"@)
}

/// Group titles that name films.
pub open spec fn names_movies(g: Seq<char>) -> bool {
    ||| contains(g, "movie"@)
    ||| contains(g, "film"@)
    ||| contains(g, "vod"@)
    ||| contains(g, "cinema"@)
    ||| contains(g, "4k movie"@)
}

/// The content type a group title implies: its lowercase form is searched for
/// series keywords first, then for film keywords; anything else is live.
pub open spec fn content_type_of(group: Seq<char>) -> ContentType {
    let g = unicode_lowercase(group);
    if names_series(g) {
        ContentType::Series
    } else if names_movies(g) {
        ContentType::Movie
    } else {
        ContentType::Live
    }
}

fn has(g: &Vec<char>, kw: &str) -> (b: bool)
    ensures
        b == contains(g@, kw@),
{
    let k = chars_of(kw);
    contains_chars(g, &k)
}

/// Guesses the content type of a channel from its group title.
pub fn infer_content_type(group: &str) -> (ct: ContentType)
    ensures
        ct == content_type_of(group@),
{
    let low = to_lowercase(group);
    let g = chars_of(low.as_str());
    if has(&g, "serie") || has(&g, "season") || has(&g, "episode") || has(&g, "show") || has(
        &g,
        "tvshow",
    ) {
        ContentType::Series
    } else if has(&g, "movie") || has(&g, "film") || has(&g, "vod") || has(&g, "cinema") || has(
        &g,
        "4k movie",
    ) {
        ContentType::Movie
    } else {
        ContentType::Live
    }
}

// ─── #EXTINF attributes ──────────────────────────────────────────────────────

/// The name after the last comma of an `#EXTINF` line, trimmed; "Unknown"
/// when the line has no comma.
pub open spec fn display_name_of(line: Seq<char>) -> Seq<char> {
    let k = last_index_of(line, ',');
    if k < 0 {
        "Unknown"@
    } else {
        trim(line.skip(k + 1))
    }
}

fn display_name_chars(line: &Vec<char>) -> (r: Vec<char>)
    ensures
        r@ == display_name_of(line@),
{
    match rfind_char(line, ',') {
        Some(k) => {
            let (a, b) = trim_bounds(line, k + 1, line.len());
            assert(line@.subrange(k + 1, line.len() as int) == line@.skip(k + 1));
            copy_range(line, a, b)
        },
        None => chars_of("Unknown"),
    }
}

/// The channel name of an `#EXTINF` line.
pub fn extract_display_name(extinf: &str) -> (name: String)
    ensures
        name@ == display_name_of(extinf@),
{
    let line = chars_of(extinf);
    let r = display_name_chars(&line);
    string_of(&r)
}

/// What an attribute key looks like in a line: the name, `=` and a quote.
pub open spec fn attr_key(attr: Seq<char>) -> Seq<char> {
    attr + seq!['=', '"']
}

/// The first position at or after `p` where `pat` occurs in `s` ignoring
/// ASCII case, or -1.
pub open spec fn find_ignore_case_from(s: Seq<char>, pat: Seq<char>, p: int) -> int
    decreases s.len() + 1 - p,
{
    if p < 0 || p + pat.len() > s.len() {
        -1
    } else if occurs_at_ignore_case(s, pat, p) {
        p
    } else {
        find_ignore_case_from(s, pat, p + 1)
    }
}

/// The value of attribute `attr` in `line`: the key is found ignoring ASCII
/// case, the value runs to the next quote and is trimmed. `None` when the key
/// is absent, no quote closes the value, or the value is empty.
pub open spec fn attr_value_of(line: Seq<char>, attr: Seq<char>) -> Option<Seq<char>> {
    let key = attr_key(attr);
    let j = find_ignore_case_from(line, key, 0);
    if j < 0 {
        None
    } else {
        let rest = line.skip(j + key.len());
        let q = index_of(rest, '"');
        if q < 0 {
            None
        } else {
            let v = trim(rest.take(q));
            if v.len() == 0 {
                None
            } else {
                Some(v)
            }
        }
    }
}

proof fn lemma_find_from_in_range(s: Seq<char>, pat: Seq<char>, p: int)
    requires
        0 <= p,
    ensures
        find_ignore_case_from(s, pat, p) == -1 || (p <= find_ignore_case_from(s, pat, p)
            && find_ignore_case_from(s, pat, p) + pat.len() <= s.len()),
    decreases s.len() + 1 - p,
{
    if p + pat.len() <= s.len() && !occurs_at_ignore_case(s, pat, p) {
        lemma_find_from_in_range(s, pat, p + 1);
    }
}

fn attr_value_chars(line: &Vec<char>, attr: &Vec<char>) -> (r: Option<Vec<char>>)
    ensures
        match r {
            Some(v) => attr_value_of(line@, attr@) == Some(v@),
            None => attr_value_of(line@, attr@) is None,
        },
{
    let mut key = attr.clone();
    key.push('=');
    key.push('"');
    assert(key@ == attr_key(attr@));
    if key.len() > line.len() {
        return None;
    }
    let last = line.len() - key.len();
    let mut i: usize = 0;
    while i < last && !matches_at_ignore_case(line, &key, i)
        invariant
            key@ == attr_key(attr@),
            last == line.len() - key.len(),
            i <= last,
            find_ignore_case_from(line@, key@, 0) == find_ignore_case_from(line@, key@, i as int),
        decreases last - i,
    {
        i += 1;
    }
    if !matches_at_ignore_case(line, &key, i) {
        assert(find_ignore_case_from(line@, key@, i + 1) == -1);
        return None;
    }
    let start = i + key.len();
    match find_char(line, start, line.len(), '"') {
        None => {
            assert(line@.subrange(start as int, line.len() as int) == line@.skip(start as int));
            None
        },
        Some(q) => {
            assert(line@.subrange(start as int, line.len() as int) == line@.skip(start as int));
            assert(line@.skip(start as int).take(q as int) == line@.subrange(
                start as int,
                (start + q) as int,
            ));
            let (a, b) = trim_bounds(line, start, start + q);
            if a == b {
                None
            } else {
                Some(copy_range(line, a, b))
            }
        },
    }
}

/// The value of attribute `attr` in an `#EXTINF` line.
pub fn extract_attr(line: &str, attr: &str) -> (r: Option<String>)
    ensures
        opt_chars(r) == attr_value_of(line@, attr@),
{
    let l = chars_of(line);
    let a = chars_of(attr);
    match attr_value_chars(&l, &a) {
        Some(v) => Some(string_of(&v)),
        None => None,
    }
}

// ─── Playlist ────────────────────────────────────────────────────────────────

/// The channel an `#EXTINF` line and its URL line describe.
pub open spec fn channel_of(line: Seq<char>, url: Seq<char>) -> ChannelView {
    let group = match attr_value_of(line, "group-title"@) {
        Some(g) => g,
        None => Seq::empty(),
    };
    ChannelView {
        name: display_name_of(line),
        url: url,
        group: group,
        logo: attr_value_of(line, "tvg-logo"@),
        tvg_id: attr_value_of(line, "tvg-id"@),
        content_type: content_type_of(group),
    }
}

/// A trimmed line that opens a channel entry.
pub open spec fn is_extinf_line(l: Seq<char>) -> bool {
    starts_with(l, "#EXTINF:"@)
}

/// A trimmed line that can serve as a stream URL: not empty, not a comment.
pub open spec fn is_url_line(l: Seq<char>) -> bool {
    l.len() > 0 && l[0] != '#'
}

/// The first index at or after `k` of a URL line, or the length of `ls`.
pub open spec fn next_url_line(ls: Seq<Seq<char>>, k: int) -> int
    decreases ls.len() - k,
{
    if k < 0 || k >= ls.len() {
        ls.len() as int
    } else if is_url_line(ls[k]) {
        k
    } else {
        next_url_line(ls, k + 1)
    }
}

/// The URL line looked for from line `k` is at or after `k`, or past the end.
pub proof fn lemma_next_url_line_bounds(ls: Seq<Seq<char>>, k: int)
    requires
        0 <= k,
    ensures
        k <= next_url_line(ls, k) || next_url_line(ls, k) == ls.len(),
        next_url_line(ls, k) <= ls.len(),
    decreases ls.len() - k,
{
    if k < ls.len() && !is_url_line(ls[k]) {
        lemma_next_url_line_bounds(ls, k + 1);
    }
}

/// The channels of a playlist given as trimmed lines: each `#EXTINF` line is
/// paired with the next URL line after it (lines between are skipped); an
/// entry with no URL line after it ends the playlist.
pub open spec fn parse_lines(ls: Seq<Seq<char>>) -> Seq<ChannelView>
    decreases ls.len(),
{
    if ls.len() == 0 {
        Seq::empty()
    } else if !is_extinf_line(ls[0]) {
        parse_lines(ls.drop_first())
    } else {
        let k = next_url_line(ls, 1);
        if k >= ls.len() {
            Seq::empty()
        } else {
            proof {
                lemma_next_url_line_bounds(ls, 1);
            }
            seq![channel_of(ls[0], ls[k])] + parse_lines(ls.skip(k + 1))
        }
    }
}

/// The channels of an M3U document.
pub open spec fn playlist_of(content: Seq<char>) -> Seq<ChannelView> {
    parse_lines(trimmed_lines(content))
}

fn make_channel(line: &Vec<char>, url: &Vec<char>) -> (c: Channel)
    ensures
        c@ == channel_of(line@, url@),
{
    let name = display_name_chars(line);
    let group = match attr_value_chars(line, &chars_of("group-title")) {
        Some(g) => g,
        None => Vec::new(),
    };
    let logo = match attr_value_chars(line, &chars_of("tvg-logo")) {
        Some(v) => Some(string_of(&v)),
        None => None,
    };
    let tvg_id = match attr_value_chars(line, &chars_of("tvg-id")) {
        Some(v) => Some(string_of(&v)),
        None => None,
    };
    let group_s = string_of(&group);
    let content_type = infer_content_type(group_s.as_str());
    Channel {
        name: string_of(&name),
        url: string_of(url),
        group: group_s,
        logo,
        tvg_id,
        content_type,
    }
}

/// Parses an M3U document into its channels.
pub fn parse(content: &str) -> (channels: Vec<Channel>)
    ensures
        channels_view(channels@) == playlist_of(content@),
{
    let cs = chars_of(content);
    let ls = lines_trimmed(&cs);
    let ghost lv = ls@.map_values(|l: Vec<char>| l@);
    let extinf = chars_of("#EXTINF:");
    let n = ls.len();
    let mut out: Vec<Channel> = Vec::new();
    let mut i: usize = 0;
    assert(lv.skip(0) == lv);
    while i < n
        invariant
            i <= n == ls.len(),
            lv == ls@.map_values(|l: Vec<char>| l@),
            lv == trimmed_lines(cs@),
            cs@ == content@,
            extinf@ == "#EXTINF:"@,
            channels_view(out@) + parse_lines(lv.skip(i as int)) == parse_lines(lv),
        decreases n - i,
    {
        let ghost t = lv.skip(i as int);
        assert(t[0] == ls@[i as int]@);
        if !starts_with_chars(&ls[i], &extinf) {
            assert(t.drop_first() == lv.skip(i + 1));
            i += 1;
        } else {
            let mut j = i + 1;
            while j < n && !(ls[j].len() > 0 && ls[j][0] != '#')
                invariant
                    i < j <= n == ls.len(),
                    lv == ls@.map_values(|l: Vec<char>| l@),
                    t == lv.skip(i as int),
                    next_url_line(t, 1) == next_url_line(t, j - i),
                decreases n - j,
            {
                assert(t[j - i] == ls@[j as int]@);
                j += 1;
            }
            if j >= n {
                assert(next_url_line(t, j - i) == t.len());
                assert(parse_lines(t) == Seq::<ChannelView>::empty());
                assert(channels_view(out@) == parse_lines(lv));
                assert(lv.skip(n as int) == Seq::<Seq<char>>::empty());
                i = n;
            } else {
                assert(t[j - i] == ls@[j as int]@);
                assert(next_url_line(t, j - i) == j - i);
                let ch = make_channel(&ls[i], &ls[j]);
                let ghost prev = out@;
                out.push(ch);
                assert(channels_view(out@) == channels_view(prev).push(ch@));
                assert(t.skip(j - i + 1) == lv.skip(j + 1));
                i = j + 1;
            }
        }
    }
    out
}

// ─── Guide address ───────────────────────────────────────────────────────────

/// A trimmed line that is the playlist header.
pub open spec fn is_header_line(l: Seq<char>) -> bool {
    starts_with(l, "#EXTM3U"@)
}

/// The programme guide address a playlist names: the `url-tvg` attribute of
/// its first header line, if it has one.
pub open spec fn guide_url_of(ls: Seq<Seq<char>>) -> Option<Seq<char>>
    decreases ls.len(),
{
    if ls.len() == 0 {
        None
    } else if is_header_line(ls[0]) {
        attr_value_of(ls[0], "url-tvg"@)
    } else {
        guide_url_of(ls.drop_first())
    }
}

/// The EPG address in the header of an M3U document (`url-tvg="..."`).
pub fn parse_epg_url(content: &str) -> (r: Option<String>)
    ensures
        opt_chars(r) == guide_url_of(trimmed_lines(content@)),
{
    let cs = chars_of(content);
    let ls = lines_trimmed(&cs);
    let ghost lv = ls@.map_values(|l: Vec<char>| l@);
    let header = chars_of("#EXTM3U");
    let key = chars_of("url-tvg");
    let mut i: usize = 0;
    assert(lv.skip(0) == lv);
    while i < ls.len()
        invariant
            i <= ls.len(),
            lv == ls@.map_values(|l: Vec<char>| l@),
            lv == trimmed_lines(cs@),
            cs@ == content@,
            header@ == "#EXTM3U"@,
            key@ == "url-tvg"@,
            guide_url_of(lv) == guide_url_of(lv.skip(i as int)),
        decreases ls.len() - i,
    {
        assert(lv.skip(i as int)[0] == ls@[i as int]@);
        if starts_with_chars(&ls[i], &header) {
            return match attr_value_chars(&ls[i], &key) {
                Some(v) => Some(string_of(&v)),
                None => None,
            };
        }
        assert(lv.skip(i as int).drop_first() == lv.skip(i + 1));
        i += 1;
    }
    None
}

// ─── Sources ─────────────────────────────────────────────────────────────────

/// A playlist source names a web address when it starts with "http://" or
/// "https://"; anything else is a file path.
pub open spec fn is_remote(source: Seq<char>) -> bool {
    starts_with(source, "http://"@) || starts_with(source, "https://"@)
}

/// Whether `source` is fetched over HTTP rather than read from a file.
pub fn is_remote_source(source: &str) -> (b: bool)
    ensures
        b == is_remote(source@),
{
    let s = chars_of(source);
    starts_with_chars(&s, &chars_of("http://")) || starts_with_chars(&s, &chars_of("https://"))
}

// ─── Laws ────────────────────────────────────────────────────────────────────

proof fn lemma_next_url_line_is_url(ls: Seq<Seq<char>>, k: int)
    requires
        0 <= k,
        next_url_line(ls, k) < ls.len(),
    ensures
        is_url_line(ls[next_url_line(ls, k)]),
    decreases ls.len() - k,
{
    if k < ls.len() && !is_url_line(ls[k]) {
        lemma_next_url_line_is_url(ls, k + 1);
    }
}

proof fn lemma_parse_lines_urls(ls: Seq<Seq<char>>)
    ensures
        forall|i: int| 0 <= i < parse_lines(ls).len() ==> is_url_line(#[trigger] parse_lines(ls)[i].url),
    decreases ls.len(),
{
    if ls.len() > 0 {
        if !is_extinf_line(ls[0]) {
            lemma_parse_lines_urls(ls.drop_first());
        } else {
            let k = next_url_line(ls, 1);
            if k < ls.len() {
                lemma_next_url_line_bounds(ls, 1);
                lemma_next_url_line_is_url(ls, 1);
                lemma_parse_lines_urls(ls.skip(k + 1));
                let rest = parse_lines(ls.skip(k + 1));
                assert forall|i: int| 0 <= i < parse_lines(ls).len() implies is_url_line(
                    #[trigger] parse_lines(ls)[i].url,
                ) by {
                    if i > 0 {
                        assert(parse_lines(ls)[i] == rest[i - 1]);
                    }
                }
            }
        }
    }
}

/// Every `#EXTINF` line of `ls` has a URL line after it.
pub open spec fn entries_complete(ls: Seq<Seq<char>>) -> bool {
    forall|i: int| 0 <= i < ls.len() && #[trigger] is_extinf_line(ls[i]) ==> next_url_line(ls, i + 1) < ls.len()
}

proof fn lemma_next_url_line_append(l1: Seq<Seq<char>>, l2: Seq<Seq<char>>, j: int)
    requires
        0 <= j,
    ensures
        next_url_line(l1, j) < l1.len() <==> next_url_line(l1 + l2, j) < l1.len(),
        next_url_line(l1, j) < l1.len() ==> next_url_line(l1 + l2, j) == next_url_line(l1, j),
    decreases l1.len() - j,
{
    if j < l1.len() {
        assert((l1 + l2)[j] == l1[j]);
        if !is_url_line(l1[j]) {
            lemma_next_url_line_append(l1, l2, j + 1);
        }
    } else {
        lemma_next_url_line_bounds(l1 + l2, j);
    }
}

proof fn lemma_next_url_line_found(ls: Seq<Seq<char>>, k: int)
    requires
        0 <= k,
        next_url_line(ls, k) < ls.len(),
    ensures
        is_url_line(ls[next_url_line(ls, k)]),
    decreases ls.len() - k,
{
    if k < ls.len() && !is_url_line(ls[k]) {
        lemma_next_url_line_found(ls, k + 1);
    }
}

proof fn lemma_next_url_line_skip(ls: Seq<Seq<char>>, m: int, j: int)
    requires
        0 <= m <= ls.len(),
        0 <= j,
    ensures
        next_url_line(ls.skip(m), j) == next_url_line(ls, j + m) - m,
    decreases ls.len() - m - j,
{
    if j + m < ls.len() {
        assert(ls.skip(m)[j] == ls[j + m]);
        if !is_url_line(ls[j + m]) {
            lemma_next_url_line_skip(ls, m, j + 1);
        }
    }
}

proof fn lemma_entries_complete_skip(ls: Seq<Seq<char>>, m: int)
    requires
        entries_complete(ls),
        0 <= m <= ls.len(),
    ensures
        entries_complete(ls.skip(m)),
{
    assert forall|i: int| 0 <= i < ls.skip(m).len() && #[trigger] is_extinf_line(ls.skip(m)[i]) implies next_url_line(
        ls.skip(m),
        i + 1,
    ) < ls.skip(m).len() by {
        assert(ls.skip(m)[i] == ls[i + m]);
        assert(is_extinf_line(ls[i + m]));
        lemma_next_url_line_skip(ls, m, i + 1);
    }
}

proof fn lemma_parse_lines_append(l1: Seq<Seq<char>>, l2: Seq<Seq<char>>)
    requires
        entries_complete(l1),
    ensures
        parse_lines(l1 + l2) == parse_lines(l1) + parse_lines(l2),
    decreases l1.len(),
{
    if l1.len() == 0 {
        assert(l1 + l2 == l2);
    } else {
        assert((l1 + l2)[0] == l1[0]);
        if !is_extinf_line(l1[0]) {
            assert((l1 + l2).drop_first() == l1.drop_first() + l2);
            lemma_entries_complete_skip(l1, 1);
            assert(l1.skip(1) == l1.drop_first());
            lemma_parse_lines_append(l1.drop_first(), l2);
        } else {
            let k = next_url_line(l1, 1);
            assert(k < l1.len());
            lemma_next_url_line_append(l1, l2, 1);
            lemma_next_url_line_bounds(l1, 1);
            assert((l1 + l2)[k] == l1[k]);
            assert((l1 + l2).skip(k + 1) == l1.skip(k + 1) + l2);
            lemma_entries_complete_skip(l1, k + 1);
            lemma_parse_lines_append(l1.skip(k + 1), l2);
            assert(parse_lines(l1) == seq![channel_of(l1[0], l1[k])] + parse_lines(l1.skip(k + 1)));
            assert(parse_lines(l1 + l2) == seq![channel_of(l1[0], l1[k])] + parse_lines(
                (l1 + l2).skip(k + 1),
            ));
            assert(seq![channel_of(l1[0], l1[k])] + (parse_lines(l1.skip(k + 1)) + parse_lines(l2))
                == (seq![channel_of(l1[0], l1[k])] + parse_lines(l1.skip(k + 1))) + parse_lines(l2));
        }
    }
}

/// Playlists put one after the other parse to their channels one after the
/// other, where the first ends with a line feed (or is empty) and each of
/// its `#EXTINF` lines has its URL line within it.
pub proof fn playlists_concatenate(a: Seq<char>, b: Seq<char>)
    requires
        a.len() == 0 || a.last() == '\n',
        entries_complete(trimmed_lines(a)),
    ensures
        playlist_of(a + b) == playlist_of(a) + playlist_of(b),
{
    reveal_strlit("#EXTINF:");
    if a.len() == 0 {
        assert(a + b == b);
        assert(split_lines(a) == seq![a]);
        assert(trimmed_lines(a) == seq![trim(a)]);
        assert(trim(a) == a);
        assert(!is_extinf_line(trim(a)));
        assert(parse_lines(trimmed_lines(a)) == parse_lines(seq![trim(a)].drop_first()));
        assert(seq![trim(a)].drop_first() == Seq::<Seq<char>>::empty());
        assert(playlist_of(a) == Seq::<ChannelView>::empty());
        assert(Seq::<ChannelView>::empty() + playlist_of(b) == playlist_of(b));
    } else {
        lemma_split_lines_append(a, b);
        let sa = split_lines(a);
        let tl = trimmed_lines(a);
        let t1 = tl.drop_last();

        assert(trimmed_lines(a + b) == t1 + trimmed_lines(b)) by {
            assert(split_lines(a + b) == sa.drop_last() + split_lines(b));
            assert(sa.drop_last().map_values(|l: Seq<char>| trim(l)) == t1);
        }
        let e = tl.last();
        assert(e == trim(sa.last()));
        assert(trim(sa.last()) == sa.last());
        assert(!is_url_line(e) && !is_extinf_line(e));
        assert(tl == t1 + seq![e]);
        assert(entries_complete(t1)) by {
            assert forall|i: int| 0 <= i < t1.len() && #[trigger] is_extinf_line(t1[i]) implies next_url_line(
                t1,
                i + 1,
            ) < t1.len() by {
                assert(tl[i] == t1[i]);
                assert(is_extinf_line(tl[i]));
                assert(next_url_line(tl, i + 1) < tl.len());
                lemma_next_url_line_append(t1, seq![e], i + 1);
                lemma_next_url_line_bounds(tl, i + 1);
                if next_url_line(tl, i + 1) == t1.len() {
                    lemma_next_url_line_found(tl, i + 1);
                    assert(tl[t1.len() as int] == e);
                }
            }
        }
        lemma_parse_lines_append(t1, seq![e]);
        lemma_parse_lines_append(t1, trimmed_lines(b));
        assert(parse_lines(seq![e]) == Seq::<ChannelView>::empty()) by {
            reveal_with_fuel(parse_lines, 2);
            assert(seq![e][0] == e);
            assert(seq![e].drop_first() == Seq::<Seq<char>>::empty());
        }
        assert(parse_lines(t1) + Seq::<ChannelView>::empty() == parse_lines(t1));
    }
}

/// A line that starts with "#EXTINF:", whatever duration and attributes
/// follow, and a URL line after it make one channel with that URL: the
/// name, group, logo and guide id of the `#EXTINF` line.
pub proof fn extinf_entries_make_channels(l: Seq<char>, u: Seq<char>)
    requires
        l.len() >= 8,
        l.take(8) == "#EXTINF:"@,
        u.len() > 0,
        u[0] != '#',
        trim(l) == l,
        trim(u) == u,
        forall|i: int| 0 <= i < l.len() ==> l[i] != '\n',
        forall|i: int| 0 <= i < u.len() ==> u[i] != '\n',
    ensures
        playlist_of(l + seq!['\n'] + u) == seq![channel_of(l, u)],
        playlist_of(l + seq!['\n'] + u)[0].url == u,
{
    reveal_strlit("#EXTINF:");
    let c = l + seq!['\n'] + u;
    lemma_index_of(c, '\n', l.len() as int);
    assert(c.take(l.len() as int) == l);
    assert(c.skip(l.len() as int + 1) == u);
    lemma_index_of(u, '\n', u.len() as int);
    assert(split_lines(u) == seq![u]);
    assert(split_lines(c) == seq![l] + seq![u]);
    assert(trimmed_lines(c) =~= seq![l, u]);
    let ls = seq![l, u];
    assert(ls[0] == l);
    assert(ls[1] == u);
    assert(l.subrange(0, 8) == l.take(8));
    assert(is_extinf_line(ls[0]));
    assert(is_url_line(ls[1]));
    assert(next_url_line(ls, 1) == 1);
    assert(ls.skip(2) =~= Seq::<Seq<char>>::empty());
    assert(parse_lines(ls.skip(2)) == Seq::<ChannelView>::empty());
    assert(parse_lines(ls) == seq![channel_of(l, u)] + Seq::<ChannelView>::empty());
    assert(seq![channel_of(l, u)] + Seq::<ChannelView>::empty() == seq![channel_of(l, u)]);
}

/// Every channel of a playlist has a URL: a non-empty line that is not a
/// comment.
pub proof fn playlist_urls_are_url_lines(content: Seq<char>)
    ensures
        forall|i: int| 0 <= i < playlist_of(content).len() ==> {
            let u = #[trigger] playlist_of(content)[i].url;
            u.len() > 0 && u[0] != '#'
        },
{
    lemma_parse_lines_urls(trimmed_lines(content));
}

proof fn lemma_trim_start_shape(s: Seq<char>)
    ensures
        trim_start(s).len() > 0 ==> !is_white_space(trim_start(s)[0]),
        trim_start(s).len() <= s.len(),
        exists|k: int| 0 <= k <= s.len() && trim_start(s) == s.skip(k),
    decreases s.len(),
{
    if s.len() > 0 && is_white_space(s[0]) {
        lemma_trim_start_shape(s.drop_first());
        let k = choose|k: int| 0 <= k <= s.drop_first().len() && trim_start(s.drop_first()) == s.drop_first().skip(k);
        assert(s.drop_first().skip(k) == s.skip(k + 1));
    } else {
        assert(s.skip(0) == s);
    }
}

proof fn lemma_trim_end_shape(s: Seq<char>)
    ensures
        trim_end(s).len() > 0 ==> !is_white_space(trim_end(s).last()),
        trim_end(s).len() <= s.len(),
        trim_end(s) == s.take(trim_end(s).len() as int),
    decreases s.len(),
{
    if s.len() > 0 && is_white_space(s.last()) {
        lemma_trim_end_shape(s.drop_last());
        assert(s.drop_last().take(trim_end(s).len() as int) == s.take(trim_end(s).len() as int));
    } else {
        assert(s.take(s.len() as int) == s);
    }
}

/// What `trim` gives begins and ends with a character that is not white space.
pub proof fn trimmed_has_no_outer_space(s: Seq<char>)
    ensures
        trim(s).len() > 0 ==> !is_white_space(trim(s)[0]) && !is_white_space(trim(s).last()),
{
    lemma_trim_start_shape(s);
    lemma_trim_end_shape(trim_start(s));
    let t = trim_start(s);
    if trim(s).len() > 0 {
        assert(trim(s)[0] == t[0]);
    }
}

/// An attribute value, when there is one, is not empty and carries no
/// white space at either end.
pub proof fn attr_values_are_trimmed(line: Seq<char>, attr: Seq<char>)
    ensures
        attr_value_of(line, attr) matches Some(v) ==> v.len() > 0 && !is_white_space(v[0])
            && !is_white_space(v.last()),
{
    let key = attr_key(attr);
    let j = find_ignore_case_from(line, key, 0);
    if j >= 0 {
        let rest = line.skip(j + key.len());
        let q = index_of(rest, '"');
        if q >= 0 {
            trimmed_has_no_outer_space(rest.take(q));
        }
    }
}

proof fn lemma_find_same_for_equal_keys(s: Seq<char>, k1: Seq<char>, k2: Seq<char>, p: int)
    requires
        eq_ignore_ascii_case(k1, k2),
    ensures
        find_ignore_case_from(s, k1, p) == find_ignore_case_from(s, k2, p),
    decreases s.len() + 1 - p,
{
    if p >= 0 && p + k1.len() <= s.len() {
        if occurs_at_ignore_case(s, k1, p) {
            assert(occurs_at_ignore_case(s, k2, p)) by {
                let sub = s.subrange(p, p + k1.len());
                assert forall|j: int| 0 <= j < sub.len() implies ascii_lower(sub[j]) == ascii_lower(
                    k2[j],
                ) by {
                    assert(ascii_lower(sub[j]) == ascii_lower(k1[j]));
                }
            }
        } else if occurs_at_ignore_case(s, k2, p) {
            assert(occurs_at_ignore_case(s, k1, p)) by {
                let sub = s.subrange(p, p + k1.len());
                assert forall|j: int| 0 <= j < sub.len() implies ascii_lower(sub[j]) == ascii_lower(
                    k1[j],
                ) by {
                    assert(ascii_lower(sub[j]) == ascii_lower(k2[j]));
                }
            }
        } else {
            lemma_find_same_for_equal_keys(s, k1, k2, p + 1);
        }
    }
}

/// Attribute names are matched without regard to ASCII case: names that
/// differ only so give the same value.
pub proof fn attr_lookup_ignores_case(line: Seq<char>, a1: Seq<char>, a2: Seq<char>)
    requires
        eq_ignore_ascii_case(a1, a2),
    ensures
        attr_value_of(line, a1) == attr_value_of(line, a2),
{
    let k1 = attr_key(a1);
    let k2 = attr_key(a2);
    assert(eq_ignore_ascii_case(k1, k2)) by {
        assert forall|j: int| 0 <= j < k1.len() implies ascii_lower(k1[j]) == ascii_lower(k2[j]) by {
            if j < a1.len() {
                assert(k1[j] == a1[j] && k2[j] == a2[j]);
            }
        }
    }
    lemma_find_same_for_equal_keys(line, k1, k2, 0);
}

/// Every channel is listed under a non-empty group name.
pub proof fn display_group_is_never_empty(group: Seq<char>)
    ensures
        display_group_of(group).len() > 0,
{
    reveal_strlit("Uncategorized");
}

} // verus!
