//! Saved playlists: when they are stale, the names of their cache files,
//! and the choices made when one is added or picked.
use std::collections::hash_map::DefaultHasher;
use std::hash::{Hash, Hasher};
use vstd::prelude::*;
use vstd::std_specs::hash::DefaultHasherAdditionalSpecFns;
use crate::text::{chars_of, ends_with, last_index_of, rfind_char, string_of, trim, trim_chars, copy_range};
use crate::epg::unix_now;
use crate::m3u::{guide_url_of, opt_chars, parse_epg_url};
use crate::text::trimmed_lines;

verus! {

/// A playlist the user has saved.
#[derive(Debug, Clone)]
pub struct PlaylistEntry {
    pub name: String,
    pub url: String,
    /// UNIX time of the last fetch; 0 when never fetched.
    pub last_fetched: u64,
    /// The programme guide address set for this playlist, which takes the
    /// place of the one in the playlist's header.
    pub epg_url: Option<String>,
}

pub struct PlaylistView {
    pub name: Seq<char>,
    pub url: Seq<char>,
    pub last_fetched: u64,
    pub epg_url: Option<Seq<char>>,
}

impl View for PlaylistEntry {
    type V = PlaylistView;

    open spec fn view(&self) -> PlaylistView {
        PlaylistView {
            name: self.name@,
            url: self.url@,
            last_fetched: self.last_fetched,
            epg_url: opt_chars(self.epg_url),
        }
    }
}

pub open spec fn playlists_view(ps: Seq<PlaylistEntry>) -> Seq<PlaylistView> {
    ps.map_values(|p: PlaylistEntry| p@)
}

/// The guide address of a playlist: the one set for it, else the one in
/// the header of its document.
pub open spec fn guide_address(p: PlaylistView, content: Seq<char>) -> Option<Seq<char>> {
    match p.epg_url {
        Some(u) => Some(u),
        None => guide_url_of(trimmed_lines(content)),
    }
}

/// The programme guide address to use for playlist `entry` whose document
/// is `content`.
pub fn guide_url(entry: &PlaylistEntry, content: &str) -> (r: Option<String>)
    ensures
        opt_chars(r) == guide_address(entry@, content@),
{
    match &entry.epg_url {
        Some(u) => Some(string_of(&chars_of(u.as_str()))),
        None => parse_epg_url(content),
    }
}

/// Three days, in seconds.
pub const REFRESH_AFTER_SECS: u64 = 259200;

/// A playlist is refreshed when more than three days have passed since it
/// was fetched (a fetch time in the future counts as no time passed).
pub open spec fn stale_at(last_fetched: u64, now: u64) -> bool {
    now > last_fetched && now - last_fetched > REFRESH_AFTER_SECS
}

/// Whether `entry` should be fetched again at time `now`.
pub fn needs_refresh_at(entry: &PlaylistEntry, now: u64) -> (b: bool)
    ensures
        b == stale_at(entry.last_fetched, now),
{
    now.saturating_sub(entry.last_fetched) > REFRESH_AFTER_SECS
}

/// A cached programme guide is fetched again once it is older than an hour.
pub const EPG_REFRESH_AFTER_SECS: u64 = 3600;

/// Whether a cached guide of age `age_secs` (`None` when there is no cache
/// file or its age cannot be told) should be fetched again.
pub fn epg_cache_stale(age_secs: Option<u64>) -> (b: bool)
    ensures
        b == match age_secs {
            Some(a) => a > EPG_REFRESH_AFTER_SECS,
            None => true,
        },
{
    match age_secs {
        Some(a) => a > EPG_REFRESH_AFTER_SECS,
        None => true,
    }
}

/// Whether `entry` should be fetched again now.
pub fn needs_refresh(entry: &PlaylistEntry) -> (b: bool)
    ensures
        exists|now: u64| b == stale_at(entry.last_fetched, now),
{
    needs_refresh_at(entry, unix_now())
}

// ─── Hashing ─────────────────────────────────────────────────────────────────

/// Name for the writes that `<str as Hash>::hash` makes to a hasher.
pub uninterp spec fn str_hash_writes(s: Seq<char>) -> Seq<Seq<u8>>;

/// Trusted: `<str as Hash>::hash` feeds the hasher a sequence of writes that
/// depends on `s` alone, which this crate calls `str_hash_writes`.
#[verifier::external_body]
fn hash_str(s: &str, h: &mut DefaultHasher)
    ensures
        final(h)@ == old(h)@ + str_hash_writes(s@),
{
    s.hash(h);
}

/// The hash of a URL under std's `DefaultHasher` with its fixed keys.
pub open spec fn url_digest(url: Seq<char>) -> u64 {
    DefaultHasher::spec_finish(Seq::<Seq<u8>>::empty() + str_hash_writes(url))
}

/// Hashes a URL, for naming its cache files.
pub fn url_hash(url: &str) -> (h: u64)
    ensures
        h == url_digest(url@),
{
    let mut hasher = DefaultHasher::new();
    hash_str(url, &mut hasher);
    hasher.finish()
}

/// The lowercase hexadecimal digit for `n` (0..=15).
pub open spec fn hex_digit(n: int) -> char {
    if n < 10 {
        (48 + n) as char
    } else {
        (87 + n) as char
    }
}

/// The `n` lowest hexadecimal digits of `v`, most significant first.
pub open spec fn hex_digits(v: u64, n: nat) -> Seq<char>
    decreases n,
{
    if n == 0 {
        Seq::empty()
    } else {
        hex_digits(v / 16, (n - 1) as nat).push(hex_digit((v % 16) as int))
    }
}

fn hex_digits_exec(v: u64, n: usize) -> (r: Vec<char>)
    ensures
        r@ == hex_digits(v, n as nat),
    decreases n,
{
    if n == 0 {
        Vec::new()
    } else {
        let mut r = hex_digits_exec(v / 16, n - 1);
        let d = v % 16;
        let c = if d < 10 {
            ((48 + d) as u8) as char
        } else {
            ((87 + d) as u8) as char
        };
        r.push(c);
        r
    }
}

fn append_str(v: &mut Vec<char>, s: &str)
    ensures
        final(v)@ == old(v)@ + s@,
{
    let cs = chars_of(s);
    let mut i: usize = 0;
    while i < cs.len()
        invariant
            i <= cs.len(),
            v@ == old(v)@ + cs@.take(i as int),
        decreases cs.len() - i,
    {
        v.push(cs[i]);
        assert(cs@.take(i + 1) == cs@.take(i as int).push(cs@[i as int]));
        i += 1;
    }
    assert(cs@.take(i as int) == cs@);
}

/// File name of the cached copy of playlist `url`: its hash as 16 hex digits.
pub open spec fn playlist_cache_name(url: Seq<char>) -> Seq<char> {
    hex_digits(url_digest(url), 16) + ".m3u"@
}

/// File name of the cached programme guide from `url`.
pub open spec fn guide_cache_name(url: Seq<char>) -> Seq<char> {
    "epg_"@ + hex_digits(url_digest(url), 16) + ".xml"@
}

/// The file name under which playlist `url` is cached.
pub fn cache_file_name(url: &str) -> (name: String)
    ensures
        name@ == playlist_cache_name(url@),
{
    let mut v = hex_digits_exec(url_hash(url), 16);
    append_str(&mut v, ".m3u");
    string_of(&v)
}

/// The file name under which the programme guide from `url` is cached.
pub fn epg_cache_file_name(url: &str) -> (name: String)
    ensures
        name@ == guide_cache_name(url@),
{
    let mut v: Vec<char> = Vec::new();
    append_str(&mut v, "epg_");
    let hex = hex_digits_exec(url_hash(url), 16);
    let mut i: usize = 0;
    let ghost start = v@;
    while i < hex.len()
        invariant
            i <= hex.len(),
            v@ == start + hex@.take(i as int),
        decreases hex.len() - i,
    {
        v.push(hex[i]);
        assert(hex@.take(i + 1) == hex@.take(i as int).push(hex@[i as int]));
        i += 1;
    }
    assert(hex@.take(i as int) == hex@);
    append_str(&mut v, ".xml");
    string_of(&v)
}

// ─── Adding and picking playlists ────────────────────────────────────────────

/// Why an entered playlist was refused.
#[derive(Debug, Clone, Copy, PartialEq, Eq, Structural)]
pub enum AddPlaylistError {
    /// Nothing but white space was entered.
    NoUrl,
}

/// The name given to a playlist at `url`: the part after its last `/`, or
/// the whole URL when that part is empty.
pub open spec fn playlist_name_of(url: Seq<char>) -> Seq<char> {
    let k = last_index_of(url, '/');
    let tail = if k < 0 {
        url
    } else {
        url.skip(k + 1)
    };
    if tail.len() > 0 {
        tail
    } else {
        url
    }
}

/// The playlist that an entered line describes: the trimmed line is its URL;
/// it has never been fetched and has no guide address of its own.
pub fn playlist_entry_from_input(line: &str) -> (r: Result<PlaylistEntry, AddPlaylistError>)
    ensures
        trim(line@).len() == 0 ==> r == Err::<PlaylistEntry, AddPlaylistError>(AddPlaylistError::NoUrl),
        trim(line@).len() > 0 ==> (r matches Ok(e) && e.url@ == trim(line@) && e.name@ == playlist_name_of(trim(line@)) && e.last_fetched == 0 && e.epg_url is None),
{
    let cs = chars_of(line);
    let url = trim_chars(&cs);
    if url.len() == 0 {
        return Err(AddPlaylistError::NoUrl);
    }
    let name = match rfind_char(&url, '/') {
        Some(k) => {
            assert(url@.subrange(k + 1, url.len() as int) == url@.skip(k + 1));
            if k + 1 < url.len() {
                copy_range(&url, k + 1, url.len())
            } else {
                copy_range(&url, 0, url.len())
            }
        },
        None => copy_range(&url, 0, url.len()),
    };
    assert(url@.subrange(0, url.len() as int) == url@);
    Ok(PlaylistEntry { name: string_of(&name), url: string_of(&url), last_fetched: 0, epg_url: None })
}

/// The number `str::parse::<usize>` reads from `s` (an optional `+` and at
/// least one ASCII digit), without bound; `None` for anything else.
pub open spec fn parse_unsigned(s: Seq<char>) -> Option<int> {
    let ds = if s.len() > 0 && s[0] == '+' {
        s.drop_first()
    } else {
        s
    };
    if ds.len() > 0 && all_decimal(ds) {
        Some(decimal_value(ds))
    } else {
        None
    }
}

/// Every character is an ASCII digit.
pub open spec fn all_decimal(ds: Seq<char>) -> bool {
    forall|i: int| 0 <= i < ds.len() ==> '0' <= #[trigger] ds[i] && ds[i] <= '9'
}

/// The number that a run of ASCII digits spells.
pub open spec fn decimal_value(ds: Seq<char>) -> int
    decreases ds.len(),
{
    if ds.len() == 0 {
        0
    } else {
        decimal_value(ds.drop_last()) * 10 + (ds.last() as int - 48)
    }
}

proof fn lemma_decimal_grows(ds: Seq<char>, k: int)
    requires
        0 <= k <= ds.len(),
        forall|i: int| 0 <= i < ds.len() ==> '0' <= #[trigger] ds[i] && ds[i] <= '9',
    ensures
        decimal_value(ds.take(k)) <= decimal_value(ds),
        0 <= decimal_value(ds.take(k)),
    decreases ds.len() - k,
{
    if k < ds.len() {
        assert(ds.take(k + 1).drop_last() == ds.take(k));
        lemma_decimal_grows(ds, k + 1);
    } else {
        assert(ds.take(k) == ds);
    }
    lemma_decimal_nonneg(ds.take(k));
}

proof fn lemma_decimal_nonneg(ds: Seq<char>)
    requires
        forall|i: int| 0 <= i < ds.len() ==> '0' <= #[trigger] ds[i] && ds[i] <= '9',
    ensures
        0 <= decimal_value(ds),
    decreases ds.len(),
{
    if ds.len() > 0 {
        lemma_decimal_nonneg(ds.drop_last());
    }
}

/// The index a typed answer selects among `len` playlists: the number typed
/// (1 when it is not a `usize`), counted from 1 and kept within the list.
pub open spec fn picked_index(line: Seq<char>, len: usize) -> int {
    let n = match parse_unsigned(trim(line)) {
        Some(v) => if v <= usize::MAX {
            v
        } else {
            1
        },
        None => 1,
    };
    let k = if n > 0 {
        n - 1
    } else {
        0
    };
    if k < len - 1 {
        k
    } else {
        len - 1
    }
}

fn parse_usize_chars(s: &Vec<char>) -> (r: Option<usize>)
    ensures
        match parse_unsigned(s@) {
            Some(v) => if v <= usize::MAX {
                r == Some(v as usize)
            } else {
                r is None
            },
            None => r is None,
        },
        parse_unsigned(s@) matches Some(v) ==> 0 <= v,
{
    let start: usize = if s.len() > 0 && s[0] == '+' {
        1
    } else {
        0
    };
    let ghost ds = if s@.len() > 0 && s@[0] == '+' {
        s@.drop_first()
    } else {
        s@
    };
    assert(ds == s@.skip(start as int));
    if start >= s.len() {
        return None;
    }
    let mut v: usize = 0;
    let mut i = start;
    while i < s.len()
        invariant
            start <= i <= s.len(),
            ds == s@.skip(start as int),
            ds == (if s@.len() > 0 && s@[0] == '+' {
                s@.drop_first()
            } else {
                s@
            }),
            forall|j: int| 0 <= j < i - start ==> '0' <= #[trigger] ds[j] && ds[j] <= '9',
            v == decimal_value(ds.take(i - start)),
        decreases s.len() - i,
    {
        let c = s[i];
        if c < '0' || c > '9' {
            assert(ds[i - start] == c);
            assert(!all_decimal(ds));
            return None;
        }
        assert(ds.take(i - start + 1).drop_last() == ds.take(i - start));
        let d = (c as u32 - 48) as usize;
        assert(d == c as int - 48);
        if v > (usize::MAX - d) / 10 {
            proof {
                assert(v * 10 + d > usize::MAX) by (nonlinear_arith)
                    requires
                        v > (usize::MAX - d) / 10,
                        d <= 9,
                ;
                assert(decimal_value(ds.take(i - start + 1)) == v * 10 + d);
                assert forall|j: int| 0 <= j < i - start + 1 implies '0' <= #[trigger] ds.take(
                    i - start + 1,
                )[j] && ds.take(i - start + 1)[j] <= '9' by {}
                if all_decimal(ds) {
                    lemma_decimal_grows(ds, i - start + 1);
                }
            }
            return None;
        }
        v = v * 10 + d;
        i += 1;
    }
    assert(ds.take(i - start) == ds);
    Some(v)
}

/// The index of the playlist chosen by typing `line`, among `len` playlists.
pub fn pick_index(line: &str, len: usize) -> (i: usize)
    requires
        len > 0,
    ensures
        i == picked_index(line@, len),
{
    let cs = chars_of(line);
    let t = trim_chars(&cs);
    let n = match parse_usize_chars(&t) {
        Some(v) => v,
        None => 1,
    };
    let k: usize = if n > 0 {
        n - 1
    } else {
        0
    };
    assert(t@ == trim(line@));
    assert(n == (match parse_unsigned(trim(line@)) {
        Some(v) => if v <= usize::MAX {
            v
        } else {
            1
        },
        None => 1,
    }));
    if k < len - 1 {
        k
    } else {
        len - 1
    }
}

// ─── Laws ────────────────────────────────────────────────────────────────────

/// Once a playlist is stale it stays stale as time goes on; one never
/// fetched is stale as soon as more than three days of UNIX time have passed.
pub proof fn staleness_only_grows(last_fetched: u64, t1: u64, t2: u64)
    requires
        t1 <= t2,
    ensures
        stale_at(last_fetched, t1) ==> stale_at(last_fetched, t2),
        stale_at(0, t1) <==> t1 > REFRESH_AFTER_SECS,
{
}

/// The playlist picked always exists.
pub proof fn picked_index_is_in_range(line: Seq<char>, len: usize)
    requires
        len > 0,
    ensures
        0 <= picked_index(line, len) < len,
{
}

/// A playlist added with a URL gets a non-empty name, a part of the URL.
pub proof fn playlist_name_is_not_empty(url: Seq<char>)
    requires
        url.len() > 0,
    ensures
        playlist_name_of(url).len() > 0,
        playlist_name_of(url) == url || ends_with(url, playlist_name_of(url)),
{
    let k = last_index_of(url, '/');
    if k >= 0 {
        lemma_last_index_in_range(url, '/');
        let tail = url.skip(k + 1);
        if tail.len() > 0 {
            assert(url.subrange(url.len() - tail.len(), url.len() as int) == tail);
        }
    }
}

proof fn lemma_last_index_in_range(s: Seq<char>, c: char)
    ensures
        -1 <= last_index_of(s, c) < s.len(),
    decreases s.len(),
{
    if s.len() > 0 && s.last() != c {
        lemma_last_index_in_range(s.drop_last(), c);
    }
}

} // verus!
