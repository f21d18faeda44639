//! The state of the channel browser and of the settings screen, and how
//! key presses change it. Drawing lives with the terminal front end.
use vstd::prelude::*;
use vstd::utf8::encode_utf8;
use crate::cache::{PlaylistEntry, PlaylistView, playlists_view};
use crate::m3u::opt_chars;
use crate::m3u::{Channel, ChannelView, ContentType, channels_view, display_group_of};
use crate::text::{
    copy_range, push_char, chars_of, contains, trim, trim_chars, lowercase_contains, same_text, string_of, to_lowercase, unicode_lowercase,
};

verus! {

// ─── Content filter ──────────────────────────────────────────────────────────

/// Which kinds of channel the browser lists.
#[derive(Debug, Clone, Copy, PartialEq, Eq, Structural)]
pub enum ContentFilter {
    All,
    Live,
    Movie,
    Series,
}

pub open spec fn filter_label(f: ContentFilter) -> Seq<char> {
    match f {
        ContentFilter::All => "All"@,
        ContentFilter::Live => "Live Channels"@,
        ContentFilter::Movie => "Movies"@,
        ContentFilter::Series => "Series"@,
    }
}

/// The filter after `f`, cycling All, Live, Movie, Series.
pub open spec fn filter_after(f: ContentFilter) -> ContentFilter {
    match f {
        ContentFilter::All => ContentFilter::Live,
        ContentFilter::Live => ContentFilter::Movie,
        ContentFilter::Movie => ContentFilter::Series,
        ContentFilter::Series => ContentFilter::All,
    }
}

/// `All` accepts every channel; each other filter its own content type.
pub open spec fn filter_accepts(f: ContentFilter, ct: ContentType) -> bool {
    match f {
        ContentFilter::All => true,
        ContentFilter::Live => ct == ContentType::Live,
        ContentFilter::Movie => ct == ContentType::Movie,
        ContentFilter::Series => ct == ContentType::Series,
    }
}

impl ContentFilter {
    /// The name shown for the filter.
    pub fn label(self) -> (s: &'static str)
        ensures
            s@ == filter_label(self),
    {
        match self {
            ContentFilter::All => "All",
            ContentFilter::Live => "Live Channels",
            ContentFilter::Movie => "Movies",
            ContentFilter::Series => "Series",
        }
    }

    /// The next filter in the cycle.
    pub fn next(self) -> (f: ContentFilter)
        ensures
            f == filter_after(self),
    {
        match self {
            ContentFilter::All => ContentFilter::Live,
            ContentFilter::Live => ContentFilter::Movie,
            ContentFilter::Movie => ContentFilter::Series,
            ContentFilter::Series => ContentFilter::All,
        }
    }

    /// Whether channels of type `ct` pass the filter.
    pub fn matches(self, ct: &ContentType) -> (b: bool)
        ensures
            b == filter_accepts(self, *ct),
    {
        match self {
            ContentFilter::All => true,
            ContentFilter::Live => *ct == ContentType::Live,
            ContentFilter::Movie => *ct == ContentType::Movie,
            ContentFilter::Series => *ct == ContentType::Series,
        }
    }
}

// ─── List selection ──────────────────────────────────────────────────────────

/// Which row of the channel list is selected, if any.
#[derive(Debug, Clone, Copy)]
pub struct ListState {
    selected: Option<usize>,
}

impl ListState {
    pub closed spec fn selection(&self) -> Option<usize> {
        self.selected
    }

    /// No row selected.
    pub fn new() -> (s: ListState)
        ensures
            s.selection() is None,
    {
        ListState { selected: None }
    }

    pub fn selected(&self) -> (r: Option<usize>)
        ensures
            r == self.selection(),
    {
        self.selected
    }

    pub fn select(&mut self, row: Option<usize>)
        ensures
            final(self).selection() == row,
    {
        self.selected = row;
    }
}

// ─── Browser state ───────────────────────────────────────────────────────────

/// The browser: the channels, the group tabs, and what the filters let through.
pub struct AppState<'a> {
    pub all_channels: &'a [Channel],
    /// "All" followed by each group (of a channel the content filter
    /// accepts) in order of first appearance.
    pub groups: Vec<String>,
    /// The selected tab.
    pub group_idx: usize,
    /// The first tab shown.
    pub tab_offset: usize,
    /// Indices into `all_channels` of the channels listed.
    pub filtered: Vec<usize>,
    pub list_state: ListState,
    pub search: String,
    pub search_mode: bool,
    pub content_filter: ContentFilter,
    /// Whether the Now/Next guide panel is shown.
    pub show_epg: bool,
}

pub struct AppView {
    pub channels: Seq<ChannelView>,
    pub groups: Seq<Seq<char>>,
    pub group_idx: usize,
    pub tab_offset: usize,
    pub filtered: Seq<usize>,
    pub selected: Option<usize>,
    pub search: Seq<char>,
    pub search_mode: bool,
    pub content_filter: ContentFilter,
    pub show_epg: bool,
}

pub open spec fn strings_view(v: Seq<String>) -> Seq<Seq<char>> {
    v.map_values(|s: String| s@)
}

impl<'a> View for AppState<'a> {
    type V = AppView;

    open spec fn view(&self) -> AppView {
        AppView {
            channels: channels_view(self.all_channels@),
            groups: strings_view(self.groups@),
            group_idx: self.group_idx,
            tab_offset: self.tab_offset,
            filtered: self.filtered@,
            selected: self.list_state.selection(),
            search: self.search@,
            search_mode: self.search_mode,
            content_filter: self.content_filter,
            show_epg: self.show_epg,
        }
    }
}

/// The groups of the channels that `f` accepts, each once, in order of
/// first appearance.
pub open spec fn collect_groups(chs: Seq<ChannelView>, f: ContentFilter) -> Seq<Seq<char>>
    decreases chs.len(),
{
    if chs.len() == 0 {
        Seq::empty()
    } else {
        let prev = collect_groups(chs.drop_last(), f);
        let g = display_group_of(chs.last().group);
        if filter_accepts(f, chs.last().content_type) && !prev.contains(g) {
            prev.push(g)
        } else {
            prev
        }
    }
}

/// The tabs: "All", then the groups.
pub open spec fn group_tabs(chs: Seq<ChannelView>, f: ContentFilter) -> Seq<Seq<char>> {
    seq!["All"@] + collect_groups(chs, f)
}

/// A channel is listed when the content filter accepts it, it is in the
/// selected group (any group under "All"), and the lowercase search text is
/// empty or occurs in its lowercase name or group.
pub open spec fn channel_listed(c: ChannelView, f: ContentFilter, group: Seq<char>, query: Seq<char>) -> bool {
    &&& filter_accepts(f, c.content_type)
    &&& group == "All"@ || display_group_of(c.group) == group
    &&& query.len() == 0 || contains(unicode_lowercase(c.name), query) || contains(
        unicode_lowercase(display_group_of(c.group)),
        query,
    )
}

/// The indices of the listed channels, in order.
pub open spec fn listed_indices(chs: Seq<ChannelView>, f: ContentFilter, group: Seq<char>, query: Seq<char>) -> Seq<usize>
    decreases chs.len(),
{
    if chs.len() == 0 {
        Seq::empty()
    } else {
        let prev = listed_indices(chs.drop_last(), f, group, query);
        if channel_listed(chs.last(), f, group, query) {
            prev.push((chs.len() - 1) as usize)
        } else {
            prev
        }
    }
}

/// The state with the list recomputed for the selected tab and the search,
/// the first row selected when there is one.
pub open spec fn refreshed(v: AppView) -> AppView {
    let filtered = listed_indices(
        v.channels,
        v.content_filter,
        v.groups[v.group_idx as int],
        unicode_lowercase(v.search),
    );
    AppView {
        filtered: filtered,
        selected: if filtered.len() == 0 {
            None
        } else {
            Some(0)
        },
        ..v
    }
}

/// The state with the tabs rebuilt for the content filter, the first tab
/// selected and shown, and the list recomputed.
pub open spec fn rebuilt(v: AppView) -> AppView {
    refreshed(
        AppView { groups: group_tabs(v.channels, v.content_filter), group_idx: 0, tab_offset: 0, ..v },
    )
}

/// The browser invariant: a tab is selected, listed indices name channels,
/// and the selected row is a listed one.
pub open spec fn app_wf(v: AppView) -> bool {
    &&& v.group_idx < v.groups.len()
    &&& v.groups.len() <= usize::MAX
    &&& forall|k: int| 0 <= k < v.filtered.len() ==> #[trigger] v.filtered[k] < v.channels.len()
    &&& v.selected matches Some(s) ==> s < v.filtered.len()
}

proof fn lemma_listed_bounds(chs: Seq<ChannelView>, f: ContentFilter, group: Seq<char>, query: Seq<char>)
    ensures
        forall|k: int| 0 <= k < listed_indices(chs, f, group, query).len()
            ==> #[trigger] listed_indices(chs, f, group, query)[k] < chs.len(),
        listed_indices(chs, f, group, query).len() <= chs.len(),
    decreases chs.len(),
{
    if chs.len() > 0 {
        lemma_listed_bounds(chs.drop_last(), f, group, query);
    }
}

impl<'a> AppState<'a> {
    /// The browser over `channels`: all content, the "All" tab, no search.
    pub fn new(channels: &'a [Channel]) -> (s: AppState<'a>)
        ensures
            s@ == rebuilt(
                AppView {
                    channels: channels_view(channels@),
                    groups: seq!["All"@],
                    group_idx: 0,
                    tab_offset: 0,
                    filtered: Seq::empty(),
                    selected: None,
                    search: Seq::empty(),
                    search_mode: false,
                    content_filter: ContentFilter::All,
                    show_epg: false,
                },
            ),
            app_wf(s@),
            s.all_channels == channels,
            s@.filtered == listed_indices(channels_view(channels@), ContentFilter::All, "All"@, Seq::empty()),
    {
        let mut state = AppState {
            all_channels: channels,
            groups: Vec::new(),
            group_idx: 0,
            tab_offset: 0,
            filtered: Vec::new(),
            list_state: ListState::new(),
            search: String::new(),
            search_mode: false,
            content_filter: ContentFilter::All,
            show_epg: false,
        };
        state.rebuild_groups();
        state
    }

    fn collect_tabs(&self) -> (tabs: Vec<String>)
        ensures
            strings_view(tabs@) == group_tabs(self@.channels, self.content_filter),
            tabs@.len() >= 1,
    {
        let chs = self.all_channels;
        let ghost cv = channels_view(chs@);
        let mut groups: Vec<String> = Vec::new();
        let ghost mut seen: Seq<Seq<char>> = Seq::empty();
        let mut i: usize = 0;
        while i < chs.len()
            invariant
                i <= chs@.len(),
                cv == channels_view(chs@),
                strings_view(groups@) == collect_groups(cv.take(i as int), self.content_filter),
            decreases chs@.len() - i,
        {
            let ch = &chs[i];
            assert(cv.take(i + 1).drop_last() == cv.take(i as int));
            assert(cv.take(i + 1).last() == ch@);
            if self.content_filter.matches(&ch.content_type) {
                let g = ch.display_group();
                let mut found = false;
                let mut j: usize = 0;
                while j < groups.len()
                    invariant
                        j <= groups@.len(),
                        !found ==> forall|k: int| 0 <= k < j ==> strings_view(groups@)[k] != g@,
                        found ==> strings_view(groups@).contains(g@),
                    decreases groups@.len() - j,
                {
                    if same_text(groups[j].as_str(), g) {
                        assert(strings_view(groups@)[j as int] == g@);
                        found = true;
                    }
                    j += 1;
                }
                if !found {
                    let ghost prev = groups@;
                    groups.push(string_of(&chars_of(g)));
                    assert(strings_view(groups@) =~= strings_view(prev).push(g@));
                }
            }
            i += 1;
        }
        assert(cv.take(i as int) == cv);
        let mut tabs: Vec<String> = Vec::new();
        tabs.push(string_of(&chars_of("All")));
        let mut k: usize = 0;
        let ghost first = strings_view(tabs@);
        while k < groups.len()
            invariant
                k <= groups@.len(),
                strings_view(tabs@) == seq!["All"@] + strings_view(groups@).take(k as int),
            decreases groups@.len() - k,
        {
            let ghost prev = tabs@;
            tabs.push(groups[k].clone());
            assert(strings_view(tabs@) =~= strings_view(prev).push(groups@[k as int]@));
            assert(strings_view(groups@).take(k + 1) =~= strings_view(groups@).take(k as int).push(groups@[k as int]@));
            k += 1;
        }
        assert(strings_view(groups@).take(k as int) == strings_view(groups@));
        assert(strings_view(tabs@).len() == tabs@.len());
        tabs
    }

    /// Rebuilds the tabs for the content filter and selects the first.
    pub fn rebuild_groups(&mut self)
        ensures
            final(self)@ == rebuilt(old(self)@),
            old(self)@.search.len() == 0 ==> final(self)@.filtered == listed_indices(
                old(self)@.channels,
                old(self).content_filter,
                "All"@,
                Seq::empty(),
            ),
            app_wf(final(self)@),
            final(self).all_channels == old(self).all_channels,
    {
        let tabs = self.collect_tabs();
        assert(strings_view(tabs@)[0] == "All"@);
        self.groups = tabs;
        self.group_idx = 0;
        self.tab_offset = 0;
        self.refresh_filter();
    }

    /// Recomputes the listed channels and selects the first.
    pub fn refresh_filter(&mut self)
        requires
            old(self).group_idx < old(self).groups@.len(),
        ensures
            final(self)@ == refreshed(old(self)@),
            old(self)@.search.len() == 0 ==> final(self)@.filtered == listed_indices(
                old(self)@.channels,
                old(self).content_filter,
                old(self)@.groups[old(self).group_idx as int],
                Seq::empty(),
            ),
            app_wf(final(self)@),
            final(self).all_channels == old(self).all_channels,
    {
        let group = self.groups[self.group_idx].clone();
        let low = to_lowercase(self.search.as_str());
        let query = chars_of(low.as_str());
        assert(self.search@.len() == 0 ==> unicode_lowercase(self.search@) =~= Seq::<char>::empty());
        let is_all = same_text(group.as_str(), "All");
        let chs = self.all_channels;
        let ghost cv = channels_view(chs@);
        let mut out: Vec<usize> = Vec::new();
        let mut i: usize = 0;
        while i < chs.len()
            invariant
                i <= chs@.len(),
                cv == channels_view(chs@),
                is_all == (group@ == "All"@),
                query@ == unicode_lowercase(self.search@),
                out@ == listed_indices(cv.take(i as int), self.content_filter, group@, query@),
            decreases chs@.len() - i,
        {
            let ch = &chs[i];
            assert(cv.take(i + 1).drop_last() == cv.take(i as int));
            assert(cv.take(i + 1).last() == ch@);
            let content_ok = self.content_filter.matches(&ch.content_type);
            let dg = ch.display_group();
            let group_ok = is_all || same_text(dg, group.as_str());
            let search_ok = query.len() == 0 || lowercase_contains(ch.name.as_str(), &query)
                || lowercase_contains(dg, &query);
            if content_ok && group_ok && search_ok {
                out.push(i);
            }
            i += 1;
        }
        assert(cv.take(i as int) == cv);
        proof {
            lemma_listed_bounds(cv, self.content_filter, group@, query@);
        }
        let tab_count = self.groups.len();
        assert(strings_view(self.groups@).len() == tab_count);
        if out.len() == 0 {
            self.list_state.select(None);
        } else {
            self.list_state.select(Some(0));
        }
        self.filtered = out;
    }
}

/// The selected row, if it is listed, names a channel.
pub open spec fn selection_names_channel(v: AppView) -> bool {
    match v.selected {
        Some(i) => i < v.filtered.len() ==> v.filtered[i as int] < v.channels.len(),
        None => true,
    }
}

/// The channel on the selected row.
pub open spec fn selected_of(v: AppView) -> Option<ChannelView> {
    match v.selected {
        Some(i) => if i < v.filtered.len() {
            Some(v.channels[v.filtered[i as int] as int])
        } else {
            None
        },
        None => None,
    }
}

/// The selection moved one row down, stopping at the last row.
pub open spec fn moved_next(v: AppView) -> AppView {
    if v.filtered.len() == 0 {
        v
    } else {
        let i = match v.selected {
            Some(i) => i as int,
            None => 0,
        };
        let last = v.filtered.len() - 1;
        AppView {
            selected: Some(
                (if i + 1 < last {
                    i + 1
                } else {
                    last
                }) as usize,
            ),
            ..v
        }
    }
}

/// The selection moved one row up, stopping at the first row.
pub open spec fn moved_prev(v: AppView) -> AppView {
    if v.filtered.len() == 0 {
        v
    } else {
        let i = match v.selected {
            Some(i) => i as int,
            None => 0,
        };
        AppView {
            selected: Some(
                (if i > 0 {
                    i - 1
                } else {
                    0
                }) as usize,
            ),
            ..v
        }
    }
}

/// The next tab selected (the first after the last), the list recomputed.
pub open spec fn next_tab(v: AppView) -> AppView {
    refreshed(AppView { group_idx: ((v.group_idx + 1) % (v.groups.len() as int)) as usize, ..v })
}

/// The previous tab selected (the last before the first), the list recomputed.
pub open spec fn prev_tab(v: AppView) -> AppView {
    refreshed(
        AppView {
            group_idx: (if v.group_idx > 0 {
                v.group_idx - 1
            } else {
                v.groups.len() - 1
            }) as usize,
            ..v
        },
    )
}

/// The next content filter, the search cleared and closed, the tabs rebuilt.
pub open spec fn cycled(v: AppView) -> AppView {
    rebuilt(
        AppView {
            content_filter: filter_after(v.content_filter),
            search: Seq::empty(),
            search_mode: false,
            ..v
        },
    )
}

impl<'a> AppState<'a> {
    /// The channel on the selected row.
    pub fn selected_channel(&self) -> (r: Option<&Channel>)
        requires
            selection_names_channel(self@),
        ensures
            match r {
                Some(c) => selected_of(self@) == Some(c@),
                None => selected_of(self@) is None,
            },
    {
        match self.list_state.selected() {
            Some(i) => {
                if i < self.filtered.len() {
                    let idx = self.filtered[i];
                    assert(self.filtered@[i as int] < self@.channels.len());
                    Some(&self.all_channels[idx])
                } else {
                    None
                }
            },
            None => None,
        }
    }

    /// Moves the selection one row down.
    pub fn next(&mut self)
        ensures
            final(self)@ == moved_next(old(self)@),
            app_wf(old(self)@) ==> app_wf(final(self)@),
            final(self).all_channels == old(self).all_channels,
    {
        if self.filtered.len() == 0 {
            return;
        }
        let i = match self.list_state.selected() {
            Some(i) => i,
            None => 0,
        };
        let last = self.filtered.len() - 1;
        self.list_state.select(Some(if i < last { i + 1 } else { last }));
    }

    /// Moves the selection one row up.
    pub fn prev(&mut self)
        ensures
            final(self)@ == moved_prev(old(self)@),
            app_wf(old(self)@) ==> app_wf(final(self)@),
            final(self).all_channels == old(self).all_channels,
    {
        if self.filtered.len() == 0 {
            return;
        }
        let i = match self.list_state.selected() {
            Some(i) => i,
            None => 0,
        };
        self.list_state.select(Some(i.saturating_sub(1)));
    }

    /// Selects the next tab, wrapping to the first.
    pub fn next_group(&mut self)
        requires
            app_wf(old(self)@),
        ensures
            final(self)@ == next_tab(old(self)@),
            app_wf(final(self)@),
            final(self).all_channels == old(self).all_channels,
    {
        assert(strings_view(self.groups@).len() == self.groups@.len());
        let n = self.groups.len();
        let g = self.group_idx;
        assert(g < n);
        let r = if g + 1 < n {
            g + 1
        } else {
            0
        };
        assert(r == (g + 1) % (n as int)) by (nonlinear_arith)
            requires
                g < n,
                r == (if g + 1 < n {
                    g + 1
                } else {
                    0
                }),
        ;
        self.group_idx = r;
        self.refresh_filter();
    }

    /// Selects the previous tab, wrapping to the last.
    pub fn prev_group(&mut self)
        requires
            app_wf(old(self)@),
        ensures
            final(self)@ == prev_tab(old(self)@),
            app_wf(final(self)@),
            final(self).all_channels == old(self).all_channels,
    {
        assert(strings_view(self.groups@).len() == self.groups@.len());
        self.group_idx = if self.group_idx > 0 {
            self.group_idx - 1
        } else {
            self.groups.len() - 1
        };
        self.refresh_filter();
    }

    /// Moves to the next content filter, clearing the search.
    pub fn cycle_content_filter(&mut self)
        ensures
            final(self)@ == cycled(old(self)@),
            app_wf(final(self)@),
            final(self).all_channels == old(self).all_channels,
    {
        self.content_filter = self.content_filter.next();
        self.search = String::new();
        self.search_mode = false;
        self.rebuild_groups();
    }
}

// ─── Truncation ──────────────────────────────────────────────────────────────

/// `s` when it has at most `max` characters; else its first `max - 1`
/// characters (none when `max` is 0) followed by an ellipsis.
pub open spec fn truncated(s: Seq<char>, max: usize) -> Seq<char> {
    if s.len() <= max {
        s
    } else {
        let k = if max > 0 {
            max - 1
        } else {
            0
        };
        s.take(k).push('\u{2026}')
    }
}

/// Shortens `s` to fit `max_chars` characters, marking the cut with "…".
pub fn truncate(s: &str, max_chars: usize) -> (r: String)
    ensures
        r@ == truncated(s@, max_chars),
{
    let cs = chars_of(s);
    if cs.len() <= max_chars {
        return string_of(&cs);
    }
    let k = if max_chars > 0 {
        max_chars - 1
    } else {
        0
    };
    let mut head = copy_range(&cs, 0, k);
    head.push('\u{2026}');
    assert(cs@.subrange(0, k as int) == cs@.take(k as int));
    string_of(&head)
}

// ─── Tab strip layout ────────────────────────────────────────────────────────

/// Where the tabs shown from `off` end: tab `i` (its name's bytes plus two
/// columns, a divider column and a two-column arrow when more tabs follow)
/// is shown while it fits in `w` after the `used` columns, and the first
/// one always is. The result is one past the last tab shown.
pub open spec fn tabs_end(gs: Seq<Seq<char>>, off: int, w: int, i: int, used: int) -> int
    decreases gs.len() - i,
{
    if i < 0 || i >= gs.len() {
        i
    } else {
        let tab = (encode_utf8(gs[i]).len() as usize) + 2;
        let more = i + 1 < gs.len();
        let div = if more {
            1int
        } else {
            0
        };
        let arrow = if more {
            2int
        } else {
            0
        };
        if used + tab + div + arrow <= w || i == off {
            tabs_end(gs, off, w, i + 1, used + tab + div)
        } else {
            i
        }
    }
}

/// One past the last tab shown from `off` in `w` columns (a two-column
/// arrow comes first when tabs are hidden on the left).
pub open spec fn last_visible(gs: Seq<Seq<char>>, off: int, w: int) -> int {
    tabs_end(
        gs,
        off,
        w,
        off,
        if off > 0 {
            2
        } else {
            0
        },
    )
}

/// The first tab shown once tab `gi` is brought into view, starting at `off`:
/// the first offset from which `gi` is shown, or the last tab when none is.
pub open spec fn settled_offset(gs: Seq<Seq<char>>, gi: int, off: int, w: int) -> int
    decreases gs.len() - off,
{
    if off < 0 || off >= gs.len() {
        if gs.len() > 0 {
            gs.len() - 1
        } else {
            0
        }
    } else if gi < last_visible(gs, off, w) {
        off
    } else {
        settled_offset(gs, gi, off + 1, w)
    }
}

/// The first tab shown after scrolling the strip so that tab `gi` is in view.
pub open spec fn scrolled_offset(gs: Seq<Seq<char>>, gi: int, off: int, w: int) -> int {
    if gi < off {
        gi
    } else {
        settled_offset(gs, gi, off, w)
    }
}

proof fn lemma_tabs_end_grows(gs: Seq<Seq<char>>, off: int, w: int, i: int, used: int)
    requires
        0 <= i,
    ensures
        tabs_end(gs, off, w, i, used) >= i,
    decreases gs.len() - i,
{
    if i < gs.len() {
        let tab = (encode_utf8(gs[i]).len() as usize) + 2;
        let div = if i + 1 < gs.len() {
            1int
        } else {
            0
        };
        lemma_tabs_end_grows(gs, off, w, i + 1, used + tab + div);
    }
}

proof fn lemma_tabs_end_from(gs: Seq<Seq<char>>, off: int, w: int, used: int)
    requires
        0 <= off < gs.len(),
    ensures
        tabs_end(gs, off, w, off, used) > off,
{
    let tab = (encode_utf8(gs[off]).len() as usize) + 2;
    let div = if off + 1 < gs.len() {
        1int
    } else {
        0
    };
    lemma_tabs_end_grows(gs, off, w, off + 1, used + tab + div);
}

proof fn lemma_settled(gs: Seq<Seq<char>>, gi: int, off: int, w: int)
    requires
        0 <= off <= gi < gs.len(),
    ensures
        off <= settled_offset(gs, gi, off, w) <= gi,
        gi < last_visible(gs, settled_offset(gs, gi, off, w), w),
    decreases gi - off,
{
    if gi >= last_visible(gs, off, w) {
        if off == gi {
            lemma_tabs_end_from(
                gs,
                off,
                w,
                if off > 0 {
                    2
                } else {
                    0
                },
            );
        } else {
            lemma_settled(gs, gi, off + 1, w);
        }
    }
}

/// Scrolling keeps the selected tab in view: after the strip is scrolled to
/// tab `gi`, that tab is at or after the first tab shown and before the end
/// of the tabs shown.
pub proof fn scrolled_tab_is_visible(gs: Seq<Seq<char>>, gi: int, off: int, w: int)
    requires
        0 <= gi < gs.len(),
        0 <= off,
    ensures
        scrolled_offset(gs, gi, off, w) <= gi,
        gi < last_visible(gs, scrolled_offset(gs, gi, off, w), w),
{
    if gi < off {
        lemma_tabs_end_from(
            gs,
            gi,
            w,
            if gi > 0 {
                2
            } else {
                0
            },
        );
    } else {
        lemma_settled(gs, gi, off, w);
    }
}

impl<'a> AppState<'a> {
    /// One past the last tab shown, from the first tab shown, in `avail_w` columns.
    pub fn last_visible_tab(&self, avail_w: usize) -> (r: usize)
        ensures
            r == last_visible(self@.groups, self.tab_offset as int, avail_w as int),
    {
        let ghost gs = self@.groups;
        let n = self.groups.len();
        let off = self.tab_offset;
        assert(gs.len() == n);
        if off >= n {
            return off;
        }
        let mut used: u128 = if off > 0 {
            2
        } else {
            0
        };
        let mut i = off;
        while i < n
            invariant
                off <= i <= n,
                off < n,
                off == self.tab_offset,
                n == self.groups@.len(),
                gs == strings_view(self.groups@),
                gs.len() == n,
                i == off ==> used <= 2,
                used <= avail_w + usize::MAX + 5,
                last_visible(gs, off as int, avail_w as int) == tabs_end(
                    gs,
                    off as int,
                    avail_w as int,
                    i as int,
                    used as int,
                ),
            decreases n - i,
        {
            let name_len = self.groups[i].as_str().len();
            assert(name_len == (encode_utf8(gs[i as int]).len() as usize));
            let tab = name_len as u128 + 2;
            let more = i + 1 < n;
            let div: u128 = if more {
                1
            } else {
                0
            };
            let arrow: u128 = if more {
                2
            } else {
                0
            };
            if used + tab + div + arrow <= avail_w as u128 || i == off {
                used = used + tab + div;
                i += 1;
            } else {
                assert(tabs_end(gs, off as int, avail_w as int, i as int, used as int) == i);
                return i;
            }
        }
        i
    }

    /// Scrolls the tab strip so that the selected tab is in view in
    /// `avail_w` columns.
    pub fn adjust_tab_offset(&mut self, avail_w: usize)
        ensures
            final(self).tab_offset == scrolled_offset(
                old(self)@.groups,
                old(self).group_idx as int,
                old(self).tab_offset as int,
                avail_w as int,
            ),
            final(self)@ == (AppView { tab_offset: final(self).tab_offset, ..old(self)@ }),
            final(self).all_channels == old(self).all_channels,
    {
        if self.group_idx < self.tab_offset {
            self.tab_offset = self.group_idx;
            return;
        }
        let ghost gs = old(self)@.groups;
        let ghost gi = old(self).group_idx as int;
        let ghost start = old(self).tab_offset as int;
        while self.tab_offset < self.groups.len() && self.group_idx >= self.last_visible_tab(avail_w)
            invariant
                gs == self@.groups,
                gs.len() == self.groups@.len(),
                gi == self.group_idx,
                self@ == (AppView { tab_offset: self.tab_offset, ..old(self)@ }),
                self.all_channels == old(self).all_channels,
                self.tab_offset >= start,
                settled_offset(gs, gi, start, avail_w as int) == settled_offset(
                    gs,
                    gi,
                    self.tab_offset as int,
                    avail_w as int,
                ),
            decreases self.groups@.len() - self.tab_offset,
        {
            self.tab_offset += 1;
        }
        if self.tab_offset >= self.groups.len() {
            self.tab_offset = self.groups.len().saturating_sub(1);
        }
    }
}

// ─── Keys and actions ────────────────────────────────────────────────────────

/// A key, as the browser tells keys apart.
#[derive(Debug, Clone, Copy, PartialEq, Eq, Structural)]
pub enum KeyCode {
    Char(char),
    Enter,
    Esc,
    Backspace,
    Tab,
    BackTab,
    Up,
    Down,
    Left,
    Right,
    Other,
}

/// The modifier keys held: Control, Shift, and whether any other was.
#[derive(Debug, Clone, Copy, PartialEq, Eq, Structural)]
pub struct KeyModifiers {
    pub control: bool,
    pub shift: bool,
    pub other: bool,
}

/// A key press.
#[derive(Debug, Clone, Copy, PartialEq, Eq, Structural)]
pub struct KeyPress {
    pub code: KeyCode,
    pub modifiers: KeyModifiers,
}

/// Exactly Control is held.
pub open spec fn only_control(m: KeyModifiers) -> bool {
    m.control && !m.shift && !m.other
}

/// Exactly Shift is held.
pub open spec fn only_shift(m: KeyModifiers) -> bool {
    !m.control && m.shift && !m.other
}

/// What the browser asks of the program.
pub enum Action {
    Play(Channel),
    /// Cast the channel to a Chromecast.
    Cast(Channel),
    /// Pause, resume or stop the cast under way.
    CastControl,
    Quit,
    AddPlaylist,
    OpenSettings,
}

pub enum ActionView {
    Play(ChannelView),
    Cast(ChannelView),
    CastControl,
    Quit,
    AddPlaylist,
    OpenSettings,
}

pub open spec fn action_view(a: Option<Action>) -> Option<ActionView> {
    match a {
        Some(Action::Play(c)) => Some(ActionView::Play(c@)),
        Some(Action::Cast(c)) => Some(ActionView::Cast(c@)),
        Some(Action::CastControl) => Some(ActionView::CastControl),
        Some(Action::Quit) => Some(ActionView::Quit),
        Some(Action::AddPlaylist) => Some(ActionView::AddPlaylist),
        Some(Action::OpenSettings) => Some(ActionView::OpenSettings),
        None => None,
    }
}

/// The browser after a key press in search mode: Esc closes and clears the
/// search, Backspace deletes its last character, a character is typed into
/// it, Enter closes it, Up and Down move the selection.
pub open spec fn search_key_step(v: AppView, code: KeyCode) -> AppView {
    match code {
        KeyCode::Esc => refreshed(AppView { search_mode: false, search: Seq::empty(), ..v }),
        KeyCode::Backspace => refreshed(
            AppView {
                search: if v.search.len() > 0 {
                    v.search.drop_last()
                } else {
                    v.search
                },
                ..v
            },
        ),
        KeyCode::Char(c) => refreshed(AppView { search: v.search.push(c), ..v }),
        KeyCode::Enter => AppView { search_mode: false, ..v },
        KeyCode::Down => moved_next(v),
        KeyCode::Up => moved_prev(v),
        _ => v,
    }
}

/// The browser and the action after a key press outside search mode: q,
/// Esc or Control-c quit; j/k and the arrows move; l, h, Tab and Shift-Tab
/// change tab; / starts a search; t changes the content filter; s opens the
/// settings; a adds a playlist; Enter plays and c casts the selected
/// channel; Shift-c (C) controls the cast under way; e shows or hides the
/// guide panel.
pub open spec fn browse_key_step(v: AppView, k: KeyPress) -> (AppView, Option<ActionView>) {
    match k.code {
        KeyCode::Char('q') | KeyCode::Esc => (v, Some(ActionView::Quit)),
        KeyCode::Char('c') if only_control(k.modifiers) => (v, Some(ActionView::Quit)),
        KeyCode::Char('c') => match selected_of(v) {
            Some(c) => (v, Some(ActionView::Cast(c))),
            None => (v, None),
        },
        KeyCode::Char('C') => (v, Some(ActionView::CastControl)),
        KeyCode::Char('e') => (AppView { show_epg: !v.show_epg, ..v }, None),
        KeyCode::Down | KeyCode::Char('j') => (moved_next(v), None),
        KeyCode::Up | KeyCode::Char('k') => (moved_prev(v), None),
        KeyCode::Right | KeyCode::Char('l') | KeyCode::Tab => (next_tab(v), None),
        KeyCode::Left | KeyCode::Char('h') => (prev_tab(v), None),
        KeyCode::BackTab if only_shift(k.modifiers) => (prev_tab(v), None),
        KeyCode::Char('/') => (AppView { search_mode: true, ..v }, None),
        KeyCode::Char('t') => (cycled(v), None),
        KeyCode::Char('s') => (v, Some(ActionView::OpenSettings)),
        KeyCode::Char('a') => (v, Some(ActionView::AddPlaylist)),
        KeyCode::Enter => match selected_of(v) {
            Some(c) => (v, Some(ActionView::Play(c))),
            None => (v, None),
        },
        _ => (v, None),
    }
}

/// The browser and the action after a key press.
pub open spec fn key_step(v: AppView, k: KeyPress) -> (AppView, Option<ActionView>) {
    if v.search_mode {
        (search_key_step(v, k.code), None)
    } else {
        browse_key_step(v, k)
    }
}

impl<'a> AppState<'a> {
    fn search_key(&mut self, code: KeyCode)
        requires
            app_wf(old(self)@),
        ensures
            final(self)@ == search_key_step(old(self)@, code),
            app_wf(final(self)@),
            final(self).all_channels == old(self).all_channels,
    {
        match code {
            KeyCode::Esc => {
                self.search_mode = false;
                self.search = String::new();
                self.refresh_filter();
            },
            KeyCode::Backspace => {
                let cs = chars_of(self.search.as_str());
                if cs.len() > 0 {
                    let shorter = copy_range(&cs, 0, cs.len() - 1);
                    self.search = string_of(&shorter);
                }
                self.refresh_filter();
            },
            KeyCode::Char(c) => {
                push_char(&mut self.search, c);
                self.refresh_filter();
            },
            KeyCode::Enter => {
                self.search_mode = false;
            },
            KeyCode::Down => self.next(),
            KeyCode::Up => self.prev(),
            _ => {},
        }
    }

    /// Applies a key press; returns what the program should do, if anything.
    pub fn handle_key(&mut self, key: KeyPress) -> (a: Option<Action>)
        requires
            app_wf(old(self)@),
        ensures
            (final(self)@, action_view(a)) == key_step(old(self)@, key),
            app_wf(final(self)@),
            final(self).all_channels == old(self).all_channels,
    {
        if self.search_mode {
            self.search_key(key.code);
            return None;
        }
        let m = key.modifiers;
        match key.code {
            KeyCode::Char('q') | KeyCode::Esc => Some(Action::Quit),
            KeyCode::Char('c') if m.control && !m.shift && !m.other => Some(Action::Quit),
            KeyCode::Char('c') => match self.selected_channel() {
                Some(ch) => Some(Action::Cast(ch.duplicate())),
                None => None,
            },
            KeyCode::Char('C') => Some(Action::CastControl),
            KeyCode::Char('e') => {
                self.show_epg = !self.show_epg;
                None
            },
            KeyCode::Down | KeyCode::Char('j') => {
                self.next();
                None
            },
            KeyCode::Up | KeyCode::Char('k') => {
                self.prev();
                None
            },
            KeyCode::Right | KeyCode::Char('l') | KeyCode::Tab => {
                self.next_group();
                None
            },
            KeyCode::Left | KeyCode::Char('h') => {
                self.prev_group();
                None
            },
            KeyCode::BackTab if !m.control && m.shift && !m.other => {
                self.prev_group();
                None
            },
            KeyCode::Char('/') => {
                self.search_mode = true;
                None
            },
            KeyCode::Char('t') => {
                self.cycle_content_filter();
                None
            },
            KeyCode::Char('s') => Some(Action::OpenSettings),
            KeyCode::Char('a') => Some(Action::AddPlaylist),
            KeyCode::Enter => match self.selected_channel() {
                Some(ch) => Some(Action::Play(ch.duplicate())),
                None => None,
            },
            _ => None,
        }
    }
}

// ─── Settings screen ─────────────────────────────────────────────────────────

/// The settings screen: which saved playlist is selected, and the guide
/// address being typed for it, if one is.
pub struct SettingsState {
    pub selected: usize,
    pub editing: Option<String>,
}

/// The selection names a playlist whenever there is one.
pub open spec fn settings_wf(selected: usize, n: nat) -> bool {
    n > 0 ==> selected < n
}

/// The guide address a typed text sets: the text trimmed, none when empty.
pub open spec fn typed_address(text: Seq<char>) -> Option<Seq<char>> {
    if trim(text).len() == 0 {
        None
    } else {
        Some(trim(text))
    }
}

/// A key press while a guide address is typed: Enter sets it on the
/// selected playlist, Esc abandons it, Backspace deletes the last character,
/// Control-c closes the screen, a character is typed.
pub open spec fn address_step(selected: usize, text: Seq<char>, ps: Seq<PlaylistView>, k: KeyPress) -> (
    usize,
    Option<Seq<char>>,
    Seq<PlaylistView>,
    bool,
) {
    match k.code {
        KeyCode::Esc => (selected, None, ps, false),
        KeyCode::Enter => (
            selected,
            None,
            if selected < ps.len() {
                ps.update(selected as int, PlaylistView { epg_url: typed_address(text), ..ps[selected as int] })
            } else {
                ps
            },
            false,
        ),
        KeyCode::Backspace => (
            selected,
            Some(
                if text.len() > 0 {
                    text.drop_last()
                } else {
                    text
                },
            ),
            ps,
            false,
        ),
        KeyCode::Char('c') if only_control(k.modifiers) => (selected, None, ps, true),
        KeyCode::Char(c) => (selected, Some(text.push(c)), ps, false),
        _ => (selected, Some(text), ps, false),
    }
}

/// The selection, the text being typed and the playlists after a key press
/// on the settings screen, and whether it closes the screen: q, Esc or
/// Control-c close it; Down and j, Up and k move the selection; d deletes
/// the selected playlist; e starts typing its guide address, from the one
/// it has.
pub open spec fn settings_step(
    selected: usize,
    editing: Option<Seq<char>>,
    ps: Seq<PlaylistView>,
    k: KeyPress,
) -> (usize, Option<Seq<char>>, Seq<PlaylistView>, bool) {
    match editing {
        Some(text) => address_step(selected, text, ps, k),
        None => match k.code {
            KeyCode::Char('q') | KeyCode::Esc => (selected, None, ps, true),
            KeyCode::Char('c') if only_control(k.modifiers) => (selected, None, ps, true),
            KeyCode::Down | KeyCode::Char('j') => if ps.len() > 0 {
                (
                    (if selected + 1 < ps.len() - 1 {
                        selected + 1
                    } else {
                        ps.len() - 1
                    }) as usize,
                    None,
                    ps,
                    false,
                )
            } else {
                (selected, None, ps, false)
            },
            KeyCode::Up | KeyCode::Char('k') => (
                (if selected > 0 {
                    selected - 1
                } else {
                    0
                }) as usize,
                None,
                ps,
                false,
            ),
            KeyCode::Char('d') => if ps.len() > 0 {
                let rest = ps.remove(selected as int);
                (
                    (if selected > 0 && selected >= rest.len() {
                        selected - 1
                    } else {
                        selected as int
                    }) as usize,
                    None,
                    rest,
                    false,
                )
            } else {
                (selected, None, ps, false)
            },
            KeyCode::Char('e') => if selected < ps.len() {
                (
                    selected,
                    Some(
                        match ps[selected as int].epg_url {
                            Some(u) => u,
                            None => Seq::empty(),
                        },
                    ),
                    ps,
                    false,
                )
            } else {
                (selected, None, ps, false)
            },
            _ => (selected, None, ps, false),
        },
    }
}

fn copy_text(s: &String) -> (r: String)
    ensures
        r@ == s@,
{
    string_of(&chars_of(s.as_str()))
}

fn set_guide_address(playlists: &mut Vec<PlaylistEntry>, i: usize, address: Option<String>)
    requires
        i < old(playlists)@.len(),
    ensures
        final(playlists)@.len() == old(playlists)@.len(),
        playlists_view(final(playlists)@) == playlists_view(old(playlists)@).update(
            i as int,
            PlaylistView { epg_url: opt_chars(address), ..playlists_view(old(playlists)@)[i as int] },
        ),
{
    let e = PlaylistEntry {
        name: copy_text(&playlists[i].name),
        url: copy_text(&playlists[i].url),
        last_fetched: playlists[i].last_fetched,
        epg_url: address,
    };
    let ghost before = playlists@;
    playlists.set(i, e);
    assert(playlists_view(playlists@) =~= playlists_view(before).update(
        i as int,
        PlaylistView { epg_url: opt_chars(address), ..playlists_view(before)[i as int] },
    ));
}

impl SettingsState {
    /// The settings screen with the first playlist selected, nothing typed.
    pub fn new() -> (s: SettingsState)
        ensures
            s.selected == 0,
            s.editing is None,
    {
        SettingsState { selected: 0, editing: None }
    }

    /// A key press while a guide address is typed, for `count` playlists:
    /// whether the screen closes, and the address to set on the selected
    /// playlist, if one is to be set.
    fn address_key(&mut self, count: usize, key: KeyPress) -> (r: (bool, Option<Option<String>>))
        requires
            old(self).editing is Some,
        ensures
            final(self).selected == old(self).selected,
            opt_chars(final(self).editing) == address_step(
                old(self).selected,
                old(self).editing->0@,
                Seq::<PlaylistView>::new(count as nat, |i: int| arbitrary()),
                key,
            ).1,
            r.0 == address_step(
                old(self).selected,
                old(self).editing->0@,
                Seq::<PlaylistView>::new(count as nat, |i: int| arbitrary()),
                key,
            ).3,
            r.1 is Some <==> (key.code == KeyCode::Enter && old(self).selected < count),
            r.1 matches Some(a) ==> opt_chars(a) == typed_address(old(self).editing->0@),
    {
        let m = key.modifiers;
        let text = match &self.editing {
            Some(t) => chars_of(t.as_str()),
            None => Vec::new(),
        };
        match key.code {
            KeyCode::Esc => {
                self.editing = None;
                (false, None)
            },
            KeyCode::Enter => {
                self.editing = None;
                if self.selected < count {
                    let t = trim_chars(&text);
                    let address = if t.len() == 0 {
                        None
                    } else {
                        Some(string_of(&t))
                    };
                    (false, Some(address))
                } else {
                    (false, None)
                }
            },
            KeyCode::Backspace => {
                if text.len() > 0 {
                    let shorter = copy_range(&text, 0, text.len() - 1);
                    self.editing = Some(string_of(&shorter));
                }
                (false, None)
            },
            KeyCode::Char('c') if m.control && !m.shift && !m.other => {
                self.editing = None;
                (true, None)
            },
            KeyCode::Char(c) => {
                let mut t = string_of(&text);
                push_char(&mut t, c);
                self.editing = Some(t);
                (false, None)
            },
            _ => (false, None),
        }
    }

    /// Applies a key press; returns whether the screen closes.
    pub fn handle_key(&mut self, playlists: &mut Vec<PlaylistEntry>, key: KeyPress) -> (done: bool)
        requires
            settings_wf(old(self).selected, old(playlists)@.len()),
        ensures
            (final(self).selected, opt_chars(final(self).editing), playlists_view(final(playlists)@), done)
                == settings_step(
                old(self).selected,
                opt_chars(old(self).editing),
                playlists_view(old(playlists)@),
                key,
            ),
            settings_wf(final(self).selected, final(playlists)@.len()),
    {
        if self.editing.is_some() {
            let (done, set) = self.address_key(playlists.len(), key);
            match set {
                Some(address) => {
                    set_guide_address(playlists, self.selected, address);
                },
                None => {},
            }
            return done;
        }
        let m = key.modifiers;
        match key.code {
            KeyCode::Char('q') | KeyCode::Esc => true,
            KeyCode::Char('c') if m.control && !m.shift && !m.other => true,
            KeyCode::Down | KeyCode::Char('j') => {
                if playlists.len() > 0 {
                    let last = playlists.len() - 1;
                    self.selected = if self.selected + 1 < last {
                        self.selected + 1
                    } else {
                        last
                    };
                }
                false
            },
            KeyCode::Up | KeyCode::Char('k') => {
                self.selected = self.selected.saturating_sub(1);
                false
            },
            KeyCode::Char('d') => {
                if playlists.len() > 0 {
                    let ghost before = playlists@;
                    playlists.remove(self.selected);
                    assert(playlists_view(playlists@) =~= playlists_view(before).remove(self.selected as int));
                    if self.selected > 0 && self.selected >= playlists.len() {
                        self.selected -= 1;
                    }
                }
                false
            },
            KeyCode::Char('e') => {
                if self.selected < playlists.len() {
                    self.editing = Some(
                        match &playlists[self.selected].epg_url {
                            Some(u) => copy_text(u),
                            None => String::new(),
                        },
                    );
                }
                false
            },
            _ => false,
        }
    }
}

// ─── Picking from a list ─────────────────────────────────────────────────────

/// What a key press does in a list to pick from, such as the devices to
/// cast to.
#[derive(Debug, Clone, Copy, PartialEq, Eq, Structural)]
pub enum PickStep {
    /// The highlighted row is now this one.
    At(usize),
    /// This row was chosen.
    Chosen(usize),
    /// The list was closed without a choice.
    Cancelled,
}

/// Esc, q or Control-c close the list; Down and j, Up and k move the
/// highlight within it; Enter chooses the highlighted row.
pub open spec fn pick_step_of(selected: usize, count: usize, k: KeyPress) -> PickStep {
    match k.code {
        KeyCode::Esc | KeyCode::Char('q') => PickStep::Cancelled,
        KeyCode::Char('c') if only_control(k.modifiers) => PickStep::Cancelled,
        KeyCode::Down | KeyCode::Char('j') => PickStep::At(
            if selected + 1 < count {
                (selected + 1) as usize
            } else {
                selected
            },
        ),
        KeyCode::Up | KeyCode::Char('k') => PickStep::At(
            if selected > 0 {
                (selected - 1) as usize
            } else {
                0
            },
        ),
        KeyCode::Enter => if selected < count {
            PickStep::Chosen(selected)
        } else {
            PickStep::Cancelled
        },
        _ => PickStep::At(selected),
    }
}

/// Applies a key press to a list of `count` rows with row `selected`
/// highlighted.
pub fn pick_step(selected: usize, count: usize, key: KeyPress) -> (r: PickStep)
    ensures
        r == pick_step_of(selected, count, key),
{
    let m = key.modifiers;
    match key.code {
        KeyCode::Esc | KeyCode::Char('q') => PickStep::Cancelled,
        KeyCode::Char('c') if m.control && !m.shift && !m.other => PickStep::Cancelled,
        KeyCode::Down | KeyCode::Char('j') => PickStep::At(
            if count > 0 && selected < count - 1 {
                selected + 1
            } else {
                selected
            },
        ),
        KeyCode::Up | KeyCode::Char('k') => PickStep::At(
            if selected > 0 {
                selected - 1
            } else {
                0
            },
        ),
        KeyCode::Enter => if selected < count {
            PickStep::Chosen(selected)
        } else {
            PickStep::Cancelled
        },
        _ => PickStep::At(selected),
    }
}

// ─── Laws ────────────────────────────────────────────────────────────────────

/// Four steps of the content filter come back to where they started.
pub proof fn filter_cycle_has_period_four(f: ContentFilter)
    ensures
        filter_after(filter_after(filter_after(filter_after(f)))) == f,
        filter_after(f) != f,
{
}

/// Moving to the previous tab undoes moving to the next one, and the other
/// way round: the same tab is selected and the list is recomputed for it.
pub proof fn tab_moves_undo_each_other(v: AppView)
    requires
        app_wf(v),
    ensures
        prev_tab(next_tab(v)) == refreshed(v),
        next_tab(prev_tab(v)) == refreshed(v),
{
    let n = v.groups.len() as int;
    let g = v.group_idx as int;
    assert((g + 1) % n == if g + 1 < n { g + 1 } else { 0 }) by (nonlinear_arith)
        requires
            0 <= g < n,
    ;
    let w = next_tab(v);
    assert(w.group_idx as int == (g + 1) % n);
    assert(prev_tab(w).group_idx == g);
    let p = if g > 0 {
        g - 1
    } else {
        n - 1
    };
    assert((p + 1) % n == g) by (nonlinear_arith)
        requires
            0 <= g < n,
            p == (if g > 0 {
                g - 1
            } else {
                n - 1
            }),
    ;
    let u = prev_tab(v);
    assert(u.group_idx == p);
    assert(next_tab(u).group_idx == g);
}

proof fn lemma_push_contains(s: Seq<usize>, y: usize, x: usize)
    ensures
        s.push(y).contains(x) <==> (s.contains(x) || x == y),
{
    if s.contains(x) {
        let k = choose|k: int| 0 <= k < s.len() && s[k] == x;
        assert(s.push(y)[k] == x);
    }
    if x == y {
        assert(s.push(y)[s.len() as int] == y);
    }
    if s.push(y).contains(x) && x != y {
        let k = choose|k: int| 0 <= k < s.push(y).len() && s.push(y)[k] == x;
        assert(k < s.len());
        assert(s[k] == x);
    }
}

/// The list shows exactly the channels that pass the filters, in playlist
/// order: an index is listed if and only if its channel passes, and the
/// listed indices increase.
pub proof fn listing_is_exact(chs: Seq<ChannelView>, f: ContentFilter, group: Seq<char>, query: Seq<char>)
    requires
        chs.len() <= usize::MAX,
    ensures
        forall|i: int|
            0 <= i < chs.len() ==> (listed_indices(chs, f, group, query).contains(i as usize)
                <==> channel_listed(#[trigger] chs[i], f, group, query)),
        forall|a: int, b: int|
            0 <= a < b < listed_indices(chs, f, group, query).len() ==> listed_indices(
                chs,
                f,
                group,
                query,
            )[a] < listed_indices(chs, f, group, query)[b],
    decreases chs.len(),
{
    if chs.len() > 0 {
        let init = chs.drop_last();
        listing_is_exact(init, f, group, query);
        lemma_listed_bounds(init, f, group, query);
        let prev = listed_indices(init, f, group, query);
        let last = (chs.len() - 1) as usize;
        let listed_last = channel_listed(chs.last(), f, group, query);
        assert(!prev.contains(last)) by {
            if prev.contains(last) {
                let k = choose|k: int| 0 <= k < prev.len() && prev[k] == last;
                assert(prev[k] < init.len());
            }
        }
        assert forall|i: int| 0 <= i < chs.len() implies (listed_indices(chs, f, group, query).contains(
            i as usize,
        ) <==> channel_listed(#[trigger] chs[i], f, group, query)) by {
            lemma_push_contains(prev, last, i as usize);
            if i < chs.len() - 1 {
                assert(init[i] == chs[i]);
            }
        }
    }
}

proof fn lemma_collect_groups_distinct(chs: Seq<ChannelView>, f: ContentFilter)
    ensures
        forall|a: int, b: int|
            0 <= a < b < collect_groups(chs, f).len() ==> collect_groups(chs, f)[a] != collect_groups(
                chs,
                f,
            )[b],
    decreases chs.len(),
{
    if chs.len() > 0 {
        lemma_collect_groups_distinct(chs.drop_last(), f);
        let prev = collect_groups(chs.drop_last(), f);
        let g = display_group_of(chs.last().group);
        if filter_accepts(f, chs.last().content_type) && !prev.contains(g) {
            assert forall|a: int| 0 <= a < prev.len() implies prev.push(g)[a] != g by {
                assert(prev.push(g)[a] == prev[a]);
            }
        }
    }
}

/// The tabs are "All" followed by groups that each occur once, and every
/// group of a channel that the content filter accepts has a tab.
pub proof fn tabs_name_each_group_once(chs: Seq<ChannelView>, f: ContentFilter)
    ensures
        group_tabs(chs, f)[0] == "All"@,
        forall|a: int, b: int|
            1 <= a < b < group_tabs(chs, f).len() ==> group_tabs(chs, f)[a] != group_tabs(chs, f)[b],
        forall|i: int|
            0 <= i < chs.len() && filter_accepts(f, #[trigger] chs[i].content_type)
                ==> group_tabs(chs, f).contains(display_group_of(chs[i].group)),
{
    lemma_collect_groups_distinct(chs, f);
    lemma_collect_groups_complete(chs, f);
    let c = collect_groups(chs, f);
    assert forall|a: int, b: int| 1 <= a < b < group_tabs(chs, f).len() implies group_tabs(chs, f)[a]
        != group_tabs(chs, f)[b] by {
        assert(group_tabs(chs, f)[a] == c[a - 1]);
        assert(group_tabs(chs, f)[b] == c[b - 1]);
    }
    assert forall|i: int|
        0 <= i < chs.len() && filter_accepts(f, #[trigger] chs[i].content_type) implies group_tabs(
        chs,
        f,
    ).contains(display_group_of(chs[i].group)) by {
        let k = choose|k: int| 0 <= k < c.len() && c[k] == display_group_of(chs[i].group);
        assert(group_tabs(chs, f)[k + 1] == c[k]);
    }
}

proof fn lemma_collect_groups_complete(chs: Seq<ChannelView>, f: ContentFilter)
    ensures
        forall|i: int|
            0 <= i < chs.len() && filter_accepts(f, #[trigger] chs[i].content_type)
                ==> collect_groups(chs, f).contains(display_group_of(chs[i].group)),
    decreases chs.len(),
{
    if chs.len() > 0 {
        let init = chs.drop_last();
        lemma_collect_groups_complete(init, f);
        let prev = collect_groups(init, f);
        let g = display_group_of(chs.last().group);
        assert forall|i: int|
            0 <= i < chs.len() && filter_accepts(f, #[trigger] chs[i].content_type) implies collect_groups(
            chs,
            f,
        ).contains(display_group_of(chs[i].group)) by {
            if i < chs.len() - 1 {
                assert(init[i] == chs[i]);
                let k = choose|k: int| 0 <= k < prev.len() && prev[k] == display_group_of(init[i].group);
                if filter_accepts(f, chs.last().content_type) && !prev.contains(g) {
                    assert(prev.push(g)[k] == prev[k]);
                }
            } else {
                if !prev.contains(g) {
                    assert(prev.push(g)[prev.len() as int] == g);
                }
            }
        }
    }
}

/// Outside search mode, Up and k move the selection one row up, stopping at
/// the first row, and Down and j one row down, stopping at the last; in
/// search mode the arrow keys do the same. Nothing else changes.
pub proof fn arrow_keys_move_one_row(v: AppView, k: KeyPress, i: usize)
    requires
        v.selected == Some(i),
        i < v.filtered.len(),
    ensures
        !v.search_mode && (k.code == KeyCode::Up || k.code == KeyCode::Char('k')) ==> key_step(v, k) == (
            AppView {
                selected: Some(
                    (if i > 0 {
                        i - 1
                    } else {
                        0
                    }) as usize,
                ),
                ..v
            },
            None::<ActionView>,
        ),
        !v.search_mode && (k.code == KeyCode::Down || k.code == KeyCode::Char('j')) ==> key_step(v, k) == (
            AppView {
                selected: Some(
                    (if i + 1 < v.filtered.len() {
                        i + 1
                    } else {
                        i as int
                    }) as usize,
                ),
                ..v
            },
            None::<ActionView>,
        ),
        v.search_mode && k.code == KeyCode::Up ==> key_step(v, k).0.selected == Some(
            (if i > 0 {
                i - 1
            } else {
                0
            }) as usize,
        ),
        v.search_mode && k.code == KeyCode::Down ==> key_step(v, k).0.selected == Some(
            (if i + 1 < v.filtered.len() {
                i + 1
            } else {
                i as int
            }) as usize,
        ),
{
}

proof fn lemma_collect_groups_sound(chs: Seq<ChannelView>, f: ContentFilter)
    ensures
        forall|t: int|
            0 <= t < collect_groups(chs, f).len() ==> exists|i: int|
                0 <= i < chs.len() && filter_accepts(f, chs[i].content_type) && display_group_of(
                    chs[i].group,
                ) == #[trigger] collect_groups(chs, f)[t],
    decreases chs.len(),
{
    if chs.len() > 0 {
        let init = chs.drop_last();
        lemma_collect_groups_sound(init, f);
        let prev = collect_groups(init, f);
        assert forall|t: int| 0 <= t < collect_groups(chs, f).len() implies exists|i: int|
            0 <= i < chs.len() && filter_accepts(f, chs[i].content_type) && display_group_of(chs[i].group)
                == #[trigger] collect_groups(chs, f)[t] by {
            if t < prev.len() {
                assert(collect_groups(chs, f)[t] == prev[t]);
                let i = choose|i: int|
                    0 <= i < init.len() && filter_accepts(f, init[i].content_type) && display_group_of(
                        init[i].group,
                    ) == #[trigger] prev[t];
                assert(chs[i] == init[i]);
            } else {
                assert(collect_groups(chs, f)[t] == display_group_of(chs.last().group));
                assert(chs[chs.len() - 1] == chs.last());
            }
        }
    }
}

/// Outside search mode, t moves to the next content filter, clears the
/// search, and rebuilds the tabs for it: "All" and then each group of a
/// channel that the new filter accepts, once, and no other; the first tab
/// is selected and shown.
pub proof fn content_filter_key_rebuilds_tabs(v: AppView, k: KeyPress)
    requires
        !v.search_mode,
        k.code == KeyCode::Char('t'),
    ensures
        ({
            let w = key_step(v, k).0;
            let f = filter_after(v.content_filter);
            let chs = v.channels;
            &&& key_step(v, k).1 is None
            &&& w.channels == chs
            &&& w.content_filter == f
            &&& w.search.len() == 0
            &&& !w.search_mode
            &&& w.group_idx == 0
            &&& w.tab_offset == 0
            &&& w.groups.len() >= 1
            &&& w.groups[0] == "All"@
            &&& forall|a: int, b: int| 1 <= a < b < w.groups.len() ==> w.groups[a] != w.groups[b]
            &&& forall|i: int|
                0 <= i < chs.len() && filter_accepts(f, #[trigger] chs[i].content_type) ==> w.groups.contains(
                    display_group_of(chs[i].group),
                )
            &&& forall|t: int|
                1 <= t < w.groups.len() ==> exists|i: int|
                    0 <= i < chs.len() && filter_accepts(f, chs[i].content_type) && display_group_of(chs[i].group)
                        == #[trigger] w.groups[t]
        }),
{
    let f = filter_after(v.content_filter);
    let chs = v.channels;
    tabs_name_each_group_once(chs, f);
    lemma_collect_groups_sound(chs, f);
    let w = key_step(v, k).0;
    assert(w.groups == group_tabs(chs, f));
    let c = collect_groups(chs, f);
    assert forall|t: int| 1 <= t < w.groups.len() implies exists|i: int|
        0 <= i < chs.len() && filter_accepts(f, chs[i].content_type) && display_group_of(chs[i].group)
            == #[trigger] w.groups[t] by {
        assert(w.groups[t] == c[t - 1]);
    }
}

/// With no search, on the "All" tab and with every kind of content let
/// through, every channel is listed, in playlist order.
pub proof fn unfiltered_listing_is_everything(chs: Seq<ChannelView>)
    requires
        chs.len() <= usize::MAX,
    ensures
        listed_indices(chs, ContentFilter::All, "All"@, Seq::empty()) == Seq::new(
            chs.len(),
            |i: int| i as usize,
        ),
    decreases chs.len(),
{
    if chs.len() > 0 {
        unfiltered_listing_is_everything(chs.drop_last());
        assert(channel_listed(chs.last(), ContentFilter::All, "All"@, Seq::empty()));
        assert(Seq::new((chs.len() - 1) as nat, |i: int| i as usize).push((chs.len() - 1) as usize)
            =~= Seq::new(chs.len(), |i: int| i as usize));
    } else {
        assert(Seq::new(chs.len(), |i: int| i as usize) =~= Seq::<usize>::empty());
    }
}

/// A truncated text is the text itself when it fits, and otherwise ends in
/// an ellipsis and has at most as many characters as allowed (one when
/// none are allowed).
pub proof fn truncation_fits(s: Seq<char>, max: usize)
    ensures
        s.len() <= max ==> truncated(s, max) == s,
        s.len() > max ==> truncated(s, max).last() == '\u{2026}' && truncated(s, max).len() == (if max > 0 {
            max as int
        } else {
            1
        }),
        s.len() > max ==> truncated(s, max).drop_last() == s.take(truncated(s, max).len() - 1),
{
}

} // verus!
