# ipbeeldbuis

A terminal UI for browsing and playing IPTV streams from M3U playlists, with
an XMLTV programme guide and Chromecast casting. Playback needs
[mpv](https://mpv.io).

The logic is a library verified with Verus; the program around it (terminal,
files, network, mDNS, the cast protocol, mpv) is ordinary Rust.

## Layout

- `src/` — the verified library:
  - `text.rs`: character-level string helpers (trimming, searching, lines).
  - `m3u.rs`: M3U playlists: `#EXTINF` attributes, channel names, content
    types, the guide address in the header.
  - `xmltv_time.rs`: XMLTV timestamps to UNIX time, and clock times.
  - `epg.rs`: programme guides built from XML events, and now/next lookup.
  - `body.rs`: decoding fetched bodies (gzip or UTF-8).
  - `cache.rs`: saved playlists: staleness, cache file names, adding and
    picking a playlist.
  - `ui.rs`: the channel browser and settings screen as state machines over
    key presses, and the tab strip's scrolling.
  - `chromecast.rs`: stream formats, discovered devices, and casting decisions.
- `app/` — the program: command line, terminal drawing, files, HTTP, mDNS,
  the cast protocol and mpv.
- `tests/` — tests of the library.

## Usage

```bash
ipbeeldbuis --source "http://your-provider.com/playlist.m3u"
ipbeeldbuis            # use saved playlists
```
