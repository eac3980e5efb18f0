//! Turning what a station address serves into station groups: a PLS
//! playlist, the SomaFM and Radio Browser JSON catalogues, or a bare stream.
//! Fetching and JSON decoding happen outside; these functions decide what the
//! fetched data means.
use vstd::prelude::*;
use crate::pls::{opt_str, pls_best, resolve_pls};
use crate::sorting::{lemma_same_per_key_contains, same_per_key, sort_desc_stable, sorted_desc, views};
use crate::text::{
    chars_of, ends_with_ci, has_prefix, has_prefix_ci, has_suffix_ci, last_index_of,
    lemma_split_len, rfind_char, slice_chars, split, split_chars, starts_with, starts_with_ci,
    str_eq, string_of, trim, trim_chars,
};

verus! {

/// One playable channel found behind an address.
#[derive(Debug)]
pub struct ResolvedChannel {
    pub name: String,
    pub stream_url: String,
    pub artwork_url: Option<String>,
}

/// A named group of channels found behind an address.
#[derive(Debug)]
pub struct ResolvedSource {
    pub group_name: String,
    pub channels: Vec<ResolvedChannel>,
}

pub struct ChannelView {
    pub name: Seq<char>,
    pub stream_url: Seq<char>,
    pub artwork_url: Option<Seq<char>>,
}

pub struct SourceView {
    pub group_name: Seq<char>,
    pub channels: Seq<ChannelView>,
}

impl View for ResolvedChannel {
    type V = ChannelView;

    open spec fn view(&self) -> ChannelView {
        ChannelView {
            name: self.name@,
            stream_url: self.stream_url@,
            artwork_url: opt_str(self.artwork_url),
        }
    }
}

pub open spec fn channel_views(s: Seq<ResolvedChannel>) -> Seq<ChannelView> {
    s.map_values(|c: ResolvedChannel| c@)
}

impl View for ResolvedSource {
    type V = SourceView;

    open spec fn view(&self) -> SourceView {
        SourceView { group_name: self.group_name@, channels: channel_views(self.channels@) }
    }
}

// ---------------------------------------------------------------------------
// Names derived from addresses
// ---------------------------------------------------------------------------

/// The last non-empty piece, as `filter(|s| !s.is_empty()).last()` gives it.
pub open spec fn last_nonempty(ps: Seq<Seq<char>>) -> Option<Seq<char>>
    decreases ps.len(),
{
    if ps.len() == 0 {
        None
    } else if ps.last().len() > 0 {
        Some(ps.last())
    } else {
        last_nonempty(ps.drop_last())
    }
}

/// `seg` without its last `.` and what follows it (`rsplit_once('.')`).
pub open spec fn stem(seg: Seq<char>) -> Seq<char> {
    let k = last_index_of(seg, '.');
    if k >= 0 {
        seg.take(k)
    } else {
        seg
    }
}

/// `s` with every `-` and `_` replaced by a space.
pub open spec fn dashes_to_spaces(s: Seq<char>) -> Seq<char> {
    s.map_values(|c: char| if c == '-' || c == '_' { ' ' } else { c })
}

/// The third `/`-separated piece of `url` (its host, for `scheme://host/...`),
/// or `Unknown`.
pub open spec fn host_or_unknown(url: Seq<char>) -> Seq<char> {
    let ps = split(url, '/');
    if ps.len() > 2 {
        ps[2]
    } else {
        "Unknown"@
    }
}

/// The display name taken from an address: the last non-empty path piece
/// before any `?`, without its extension, with `-` and `_` as spaces and
/// trimmed; the host (or `Unknown`) when that leaves nothing.
pub open spec fn derived_name(url: Seq<char>) -> Seq<char> {
    let path = split(url, '?')[0];
    match last_nonempty(split(path, '/')) {
        Some(seg) => {
            let c = trim(dashes_to_spaces(stem(seg)));
            if c.len() > 0 {
                c
            } else {
                host_or_unknown(url)
            }
        },
        None => host_or_unknown(url),
    }
}

fn host_or_unknown_exec(url: &[char]) -> (r: Vec<char>)
    ensures
        r@ == host_or_unknown(url@),
{
    let parts = split_chars(url, '/');
    if parts.len() > 2 {
        slice_chars(&parts[2], 0, parts[2].len())
    } else {
        proof {
            reveal_strlit("Unknown");
        }
        chars_of("Unknown")
    }
}

/// A display name for a stream address (see `derived_name`).
pub fn derive_name_from_url(url: &str) -> (r: String)
    ensures
        r@ == derived_name(url@),
{
    let u = chars_of(url);
    let q = split_chars(&u, '?');
    proof {
        lemma_split_len(u@, '?');
    }
    let pieces = split_chars(&q[0], '/');
    let ghost ps = split(q@[0]@, '/');
    let mut i: usize = pieces.len();
    assert(ps.take(ps.len() as int) =~= ps);
    while i > 0 && pieces[i - 1].len() == 0
        invariant
            i <= pieces@.len() == ps.len(),
            forall|k: int| 0 <= k < pieces@.len() ==> (#[trigger] pieces@[k])@ == ps[k],
            last_nonempty(ps) == last_nonempty(ps.take(i as int)),
        decreases i,
    {
        proof {
            assert(ps.take(i as int).drop_last() =~= ps.take(i - 1));
        }
        i -= 1;
    }
    if i == 0 {
        assert(ps.take(0) =~= Seq::<Seq<char>>::empty());
        let h = host_or_unknown_exec(&u);
        return string_of(&h);
    }
    let seg = &pieces[i - 1];
    proof {
        assert(ps.take(i as int).last() == ps[i - 1]);
    }
    let stem_end = match rfind_char(seg, '.') {
        Some(k) => k,
        None => seg.len(),
    };
    let mut mapped: Vec<char> = Vec::new();
    let mut j: usize = 0;
    while j < stem_end
        invariant
            j <= stem_end <= seg@.len(),
            stem_end == seg@.len() || stem_end == last_index_of(seg@, '.'),
            mapped@ == dashes_to_spaces(seg@.take(j as int)),
        decreases stem_end - j,
    {
        let c = seg[j];
        let m = if c == '-' || c == '_' {
            ' '
        } else {
            c
        };
        mapped.push(m);
        proof {
            assert(seg@.take(j + 1) =~= seg@.take(j as int).push(c));
            assert(mapped@ =~= dashes_to_spaces(seg@.take(j + 1)));
        }
        j += 1;
    }
    proof {
        assert(seg@.take(stem_end as int) =~= stem(seg@));
    }
    let cleaned = trim_chars(&mapped);
    if cleaned.len() > 0 {
        string_of(&cleaned)
    } else {
        let h = host_or_unknown_exec(&u);
        string_of(&h)
    }
}

// ---------------------------------------------------------------------------
// What a fetched response is
// ---------------------------------------------------------------------------

/// The kinds of response that an address can give.
#[derive(Debug, Clone, Copy, PartialEq, Eq)]
pub enum ResponseKind {
    /// A PLS playlist (the trimmed body begins with `[playlist]`).
    Playlist,
    /// A JSON object, read as the SomaFM catalogue.
    SomaFm,
    /// A JSON array, read as a Radio Browser station list.
    RadioBrowser,
    /// An HTML page.
    Html,
    /// Anything else is taken to be the audio stream itself.
    Stream,
}

/// The kind of a response from its content type and body.
pub open spec fn response_kind(content_type: Seq<char>, body: Seq<char>) -> ResponseKind {
    let t = trim(body);
    if starts_with(t, "[playlist]"@) {
        ResponseKind::Playlist
    } else if starts_with(t, "{"@) {
        ResponseKind::SomaFm
    } else if starts_with(t, "["@) {
        ResponseKind::RadioBrowser
    } else if starts_with_ci(content_type, "text/html"@) || starts_with_ci(
        content_type,
        "application/xhtml"@,
    ) {
        ResponseKind::Html
    } else {
        ResponseKind::Stream
    }
}

/// Classifies a fetched response; the content type is compared without
/// regard to ASCII case.
pub fn classify_response(content_type: &str, body: &str) -> (r: ResponseKind)
    ensures
        r == response_kind(content_type@, body@),
{
    let b = chars_of(body);
    let t = trim_chars(&b);
    let ct = chars_of(content_type);
    if has_prefix(&t, "[playlist]") {
        ResponseKind::Playlist
    } else if has_prefix(&t, "{") {
        ResponseKind::SomaFm
    } else if has_prefix(&t, "[") {
        ResponseKind::RadioBrowser
    } else if has_prefix_ci(&ct, "text/html") || has_prefix_ci(&ct, "application/xhtml") {
        ResponseKind::Html
    } else {
        ResponseKind::Stream
    }
}

pub open spec fn html_message() -> Seq<char> {
    "URL returned an HTML page, expected an audio stream, PLS playlist, or JSON API. Try https://api.somafm.com/channels.json for SomaFM."@
}

/// The single-channel source `Uncategorised` for one stream.
pub open spec fn single_source(name: Seq<char>, url: Seq<char>) -> SourceView {
    SourceView {
        group_name: "Uncategorised"@,
        channels: seq![ChannelView { name: name, stream_url: url, artwork_url: None }],
    }
}

fn single(name: String, url: String) -> (r: ResolvedSource)
    ensures
        r@ == single_source(name@, url@),
{
    let mut channels: Vec<ResolvedChannel> = Vec::new();
    channels.push(ResolvedChannel { name, stream_url: url, artwork_url: None });
    let r = ResolvedSource { group_name: "Uncategorised".to_owned(), channels };
    assert(r@.channels =~= single_source(name@, url@).channels);
    r
}

/// The outcome for a fetched response from `url`, where `json` is what the
/// SomaFM or Radio Browser reading of the body gave (see `somafm_channel` and
/// `radio_browser_source`): a PLS body gives its best entry, a JSON body what
/// its reading gave, an HTML page an error, and anything else the address
/// itself as a stream named after it.
pub fn resolve_response(
    url: &str,
    content_type: &str,
    body: &str,
    json: Option<ResolvedSource>,
) -> (r: Result<ResolvedSource, String>)
    ensures
        match response_kind(content_type@, body@) {
            ResponseKind::Playlist => match (r, pls_best(body@)) {
                (Ok(s), Some(e)) => s@ == single_source(
                    match e.title {
                        Some(t) => t,
                        None => Seq::empty(),
                    },
                    e.file,
                ),
                (Err(m), None) => m@ == "Failed to parse PLS file"@,
                _ => false,
            },
            ResponseKind::SomaFm | ResponseKind::RadioBrowser => match (r, json) {
                (Ok(s), Some(j)) => s@ == j@,
                (Err(m), None) => m@ == "Unrecognised JSON format"@,
                _ => false,
            },
            ResponseKind::Html => match r {
                Ok(_) => false,
                Err(m) => m@ == html_message(),
            },
            ResponseKind::Stream => match r {
                Ok(s) => s@ == single_source(derived_name(url@), url@),
                Err(_) => false,
            },
        },
{
    match classify_response(content_type, body) {
        ResponseKind::Playlist => match resolve_pls(body) {
            Some((file, title, _)) => Ok(single(title, file)),
            None => Err("Failed to parse PLS file".to_owned()),
        },
        ResponseKind::SomaFm | ResponseKind::RadioBrowser => match json {
            Some(j) => Ok(j),
            None => Err("Unrecognised JSON format".to_owned()),
        },
        ResponseKind::Html => Err(
            "URL returned an HTML page, expected an audio stream, PLS playlist, or JSON API. Try https://api.somafm.com/channels.json for SomaFM.".to_owned(),
        ),
        ResponseKind::Stream => {
            let name = derive_name_from_url(url);
            Ok(single(name, url.to_owned()))
        },
    }
}

} // verus!

verus! {

// ---------------------------------------------------------------------------
// The SomaFM catalogue
// ---------------------------------------------------------------------------

/// One playlist of a SomaFM channel.
#[derive(Debug)]
pub struct SomaFmPlaylist {
    pub url: String,
    pub format: Option<String>,
    pub quality: Option<String>,
}

/// One channel of the SomaFM catalogue.
#[derive(Debug)]
pub struct SomaFmChannel {
    pub title: String,
    pub description: Option<String>,
    pub image: Option<String>,
    pub largeimage: Option<String>,
    pub xlimage: Option<String>,
    pub playlists: Vec<SomaFmPlaylist>,
}

pub struct PlaylistView {
    pub url: Seq<char>,
    pub format: Option<Seq<char>>,
    pub quality: Option<Seq<char>>,
}

impl View for SomaFmPlaylist {
    type V = PlaylistView;

    open spec fn view(&self) -> PlaylistView {
        PlaylistView {
            url: self.url@,
            format: opt_str(self.format),
            quality: opt_str(self.quality),
        }
    }
}

/// How much a playlist format is preferred: mp3 over aac over the rest.
pub open spec fn format_rank(f: Option<Seq<char>>) -> u32 {
    if f == Some("mp3"@) {
        2
    } else if f == Some("aac"@) {
        1
    } else {
        0
    }
}

pub open spec fn is_highest(p: PlaylistView) -> bool {
    p.quality == Some("highest"@)
}

/// Among the playlists of quality `highest`, the position of the one with the
/// most preferred format, the last one among equals; -1 if there is none.
pub open spec fn best_highest(ps: Seq<PlaylistView>) -> int
    decreases ps.len(),
{
    if ps.len() == 0 {
        -1
    } else {
        let j = best_highest(ps.drop_last());
        if !is_highest(ps.last()) {
            j
        } else if j < 0 || format_rank(ps.last().format) >= format_rank(ps[j].format) {
            ps.len() - 1
        } else {
            j
        }
    }
}

/// The playlist used for a channel: the best `highest` one, else the first
/// one; -1 when the channel has no playlist.
pub open spec fn chosen_playlist(ps: Seq<PlaylistView>) -> int {
    let j = best_highest(ps);
    if j >= 0 {
        j
    } else if ps.len() > 0 {
        0
    } else {
        -1
    }
}

proof fn lemma_best_highest(ps: Seq<PlaylistView>)
    ensures
        -1 <= best_highest(ps) < ps.len(),
    decreases ps.len(),
{
    if ps.len() > 0 {
        lemma_best_highest(ps.drop_last());
    }
}

/// Some playlist has quality `highest`.
pub open spec fn has_highest(ps: Seq<PlaylistView>) -> bool {
    exists|j: int| 0 <= j < ps.len() && (#[trigger] ps[j]).quality == Some("highest"@)
}

proof fn lemma_best_highest_max(ps: Seq<PlaylistView>)
    ensures
        best_highest(ps) == -1 <==> !has_highest(ps),
        best_highest(ps) >= 0 ==> {
            let i = best_highest(ps);
            &&& 0 <= i < ps.len()
            &&& ps[i].quality == Some("highest"@)
            &&& forall|j: int|
                0 <= j < ps.len() && (#[trigger] ps[j]).quality == Some("highest"@) ==> format_rank(
                    ps[j].format,
                ) <= format_rank(ps[i].format)
            &&& forall|j: int|
                i < j < ps.len() && (#[trigger] ps[j]).quality == Some("highest"@) ==> format_rank(
                    ps[j].format,
                ) < format_rank(ps[i].format)
        },
    decreases ps.len(),
{
    if ps.len() > 0 {
        let t = ps.drop_last();
        let n = ps.len() - 1;
        lemma_best_highest_max(t);
        lemma_best_highest(t);
        lemma_best_highest(ps);
        assert forall|j: int| 0 <= j < t.len() implies #[trigger] t[j] == ps[j] by {}
        let j0 = best_highest(t);
        if has_highest(t) {
            let j = choose|j: int| 0 <= j < t.len() && (#[trigger] t[j]).quality == Some("highest"@);
            assert(ps[j].quality == Some("highest"@));
        }
        if !is_highest(ps.last()) {
            if has_highest(ps) {
                let j = choose|j: int| 0 <= j < ps.len() && (#[trigger] ps[j]).quality == Some("highest"@);
                assert(j < n);
                assert(t[j].quality == Some("highest"@));
            }
            if j0 >= 0 {
                assert forall|j: int| 0 <= j < ps.len() && (#[trigger] ps[j]).quality == Some("highest"@) implies format_rank(ps[j].format) <= format_rank(ps[j0].format) by {
                    assert(j < n);
                    assert(t[j].quality == Some("highest"@));
                }
                assert forall|j: int| j0 < j < ps.len() && (#[trigger] ps[j]).quality == Some("highest"@) implies format_rank(ps[j].format) < format_rank(ps[j0].format) by {
                    assert(j < n);
                    assert(t[j].quality == Some("highest"@));
                }
            }
        } else if j0 < 0 || format_rank(ps.last().format) >= format_rank(ps[j0].format) {
            assert(best_highest(ps) == n);
            assert(ps[n].quality == Some("highest"@));
            assert(has_highest(ps));
            assert forall|j: int| 0 <= j < ps.len() && (#[trigger] ps[j]).quality == Some("highest"@) implies format_rank(ps[j].format) <= format_rank(ps[n].format) by {
                if j < n {
                    assert(t[j].quality == Some("highest"@));
                    assert(has_highest(t));
                    assert(j0 >= 0);
                    assert(format_rank(t[j].format) <= format_rank(t[j0].format));
                    assert(t[j0] == ps[j0]);
                }
            }
        } else {
            assert(best_highest(ps) == j0);
            assert(has_highest(ps));
            assert forall|j: int| 0 <= j < ps.len() && (#[trigger] ps[j]).quality == Some("highest"@) implies format_rank(ps[j].format) <= format_rank(ps[j0].format) by {
                if j < n {
                    assert(t[j].quality == Some("highest"@));
                }
            }
            assert forall|j: int| j0 < j < ps.len() && (#[trigger] ps[j]).quality == Some("highest"@) implies format_rank(ps[j].format) < format_rank(ps[j0].format) by {
                if j < n {
                    assert(t[j].quality == Some("highest"@));
                }
            }
        }
    } else {
        assert(!has_highest(ps));
    }
}

/// The SomaFM channel is played from a playlist of quality `highest` when it
/// has one: of those, one whose format is preferred (mp3, then aac, then the
/// rest) at least as much as every other, and preferred strictly more than
/// any later one. It is mp3 when a `highest` mp3 playlist exists, and aac when
/// only a `highest` aac one does. Without a `highest` playlist the first
/// playlist is used; without playlists none.
pub proof fn lemma_chosen_playlist(ps: Seq<PlaylistView>)
    ensures
        ps.len() == 0 ==> chosen_playlist(ps) == -1,
        ps.len() > 0 ==> 0 <= chosen_playlist(ps) < ps.len(),
        ps.len() > 0 && !has_highest(ps) ==> chosen_playlist(ps) == 0,
        has_highest(ps) ==> {
            let i = chosen_playlist(ps);
            &&& ps[i].quality == Some("highest"@)
            &&& forall|j: int|
                0 <= j < ps.len() && (#[trigger] ps[j]).quality == Some("highest"@) ==> format_rank(
                    ps[j].format,
                ) <= format_rank(ps[i].format)
            &&& forall|j: int|
                i < j < ps.len() && (#[trigger] ps[j]).quality == Some("highest"@) ==> format_rank(
                    ps[j].format,
                ) < format_rank(ps[i].format)
            &&& (exists|j: int|
                0 <= j < ps.len() && (#[trigger] ps[j]).quality == Some("highest"@) && ps[j].format
                    == Some("mp3"@)) ==> ps[i].format == Some("mp3"@)
            &&& (exists|j: int|
                0 <= j < ps.len() && (#[trigger] ps[j]).quality == Some("highest"@) && ps[j].format
                    == Some("aac"@)) && ps[i].format != Some("mp3"@) ==> ps[i].format == Some("aac"@)
        },
{
    lemma_best_highest_max(ps);
    lemma_best_highest(ps);
    if ps.len() == 0 {
        assert(!has_highest(ps));
    }
    reveal_strlit("mp3");
    reveal_strlit("aac");
    assert("mp3"@ != "aac"@) by {
        assert("mp3"@[0] != "aac"@[0]);
    }
    if has_highest(ps) {
        let i = chosen_playlist(ps);
        if exists|j: int| 0 <= j < ps.len() && (#[trigger] ps[j]).quality == Some("highest"@) && ps[j].format == Some("mp3"@) {
            let j = choose|j: int| 0 <= j < ps.len() && (#[trigger] ps[j]).quality == Some("highest"@) && ps[j].format == Some("mp3"@);
            assert(format_rank(ps[j].format) == 2);
            assert(format_rank(ps[j].format) <= format_rank(ps[i].format));
        }
        if exists|j: int| 0 <= j < ps.len() && (#[trigger] ps[j]).quality == Some("highest"@) && ps[j].format == Some("aac"@) {
            let j = choose|j: int| 0 <= j < ps.len() && (#[trigger] ps[j]).quality == Some("highest"@) && ps[j].format == Some("aac"@);
            assert(format_rank(ps[j].format) == 1);
            assert(format_rank(ps[j].format) <= format_rank(ps[i].format));
        }
    }
}

fn opt_is(o: &Option<String>, lit: &str) -> (r: bool)
    ensures
        r == (opt_str(*o) == Some(lit@)),
{
    match o {
        Some(s) => str_eq(s.as_str(), lit),
        None => false,
    }
}

fn rank_of(f: &Option<String>) -> (r: u32)
    ensures
        r == format_rank(opt_str(*f)),
{
    if opt_is(f, "mp3") {
        2
    } else if opt_is(f, "aac") {
        1
    } else {
        0
    }
}

/// The position of the playlist that a channel is played from (see
/// `chosen_playlist`), or `None` when it has no playlist.
pub fn best_playlist(ch: &SomaFmChannel) -> (r: Option<usize>)
    ensures
        match r {
            Some(i) => i == chosen_playlist(views(ch.playlists@)) && i < ch.playlists@.len(),
            None => chosen_playlist(views(ch.playlists@)) == -1,
        },
{
    let ps = &ch.playlists;
    let ghost pv = views(ps@);
    let mut best: Option<usize> = None;
    let mut best_rank: u32 = 0;
    let mut i: usize = 0;
    assert(pv.take(0).len() == 0);
    while i < ps.len()
        invariant
            i <= ps@.len() == pv.len(),
            pv == views(ps@),
            match best {
                Some(b) => b == best_highest(pv.take(i as int)) && b < i && best_rank == format_rank(
                    pv[b as int].format,
                ),
                None => best_highest(pv.take(i as int)) == -1,
            },
        decreases ps.len() - i,
    {
        proof {
            assert(pv.take(i + 1).drop_last() =~= pv.take(i as int));
            assert(pv.take(i + 1).last() == pv[i as int]);
            assert(pv[i as int] == ps@[i as int]@);
            if let Some(b) = best {
                assert(pv.take(i as int)[b as int] == pv[b as int]);
                assert(pv.take(i + 1)[b as int] == pv[b as int]);
            }
        }
        if opt_is(&ps[i].quality, "highest") {
            let r = rank_of(&ps[i].format);
            match best {
                None => {
                    best = Some(i);
                    best_rank = r;
                },
                Some(_) => {
                    if r >= best_rank {
                        best = Some(i);
                        best_rank = r;
                    }
                },
            }
        }
        i += 1;
    }
    proof {
        assert(pv.take(ps.len() as int) =~= pv);
        lemma_best_highest(pv);
    }
    match best {
        Some(b) => Some(b),
        None => if ps.len() > 0 {
            Some(0)
        } else {
            None
        },
    }
}

/// Whether a playlist address names a PLS file (`.pls`, in any ASCII case),
/// whose content must be fetched to learn the stream address.
pub fn needs_pls_fetch(url: &str) -> (r: bool)
    ensures
        r == ends_with_ci(url@, ".pls"@),
{
    let c = chars_of(url);
    has_suffix_ci(&c, ".pls")
}

/// The stream address of a SomaFM channel: the best entry of the fetched PLS
/// content when there is such content and it has an entry, else the playlist
/// address itself.
pub open spec fn somafm_stream(url: Seq<char>, content: Option<Seq<char>>) -> Seq<char> {
    match content {
        Some(c) => match pls_best(c) {
            Some(e) => e.file,
            None => url,
        },
        None => url,
    }
}

pub open spec fn opt_ref_str(o: Option<&str>) -> Option<Seq<char>> {
    match o {
        Some(s) => Some(s@),
        None => None,
    }
}

fn clone_opt(o: &Option<String>) -> (r: Option<String>)
    ensures
        opt_str(r) == opt_str(*o),
{
    match o {
        Some(s) => Some(s.clone()),
        None => None,
    }
}

/// The channel read from a SomaFM entry played from `url`, with `content`
/// the fetched PLS text when there is one.
pub open spec fn somafm_channel_of(
    ch: &SomaFmChannel,
    url: Seq<char>,
    content: Option<Seq<char>>,
) -> ChannelView {
    ChannelView {
        name: ch.title@,
        stream_url: somafm_stream(url, content),
        artwork_url: match opt_str(ch.largeimage) {
            Some(a) => Some(a),
            None => opt_str(ch.image),
        },
    }
}

/// The channel for one SomaFM catalogue entry played from `playlist_url`,
/// where `pls_content` is the fetched content when that address is a PLS
/// file: named by its title, with the large image (else the image) as artwork.
pub fn somafm_channel(ch: &SomaFmChannel, playlist_url: &str, pls_content: Option<&str>) -> (r:
    ResolvedChannel)
    ensures
        r@ == somafm_channel_of(ch, playlist_url@, opt_ref_str(pls_content)),
{
    let stream_url = match pls_content {
        Some(c) => match resolve_pls(c) {
            Some((u, _, _)) => u,
            None => playlist_url.to_owned(),
        },
        None => playlist_url.to_owned(),
    };
    let artwork_url = match &ch.largeimage {
        Some(a) => Some(a.clone()),
        None => clone_opt(&ch.image),
    };
    ResolvedChannel { name: ch.title.clone(), stream_url, artwork_url }
}

/// What reading one SomaFM channel needs next.
#[derive(Debug)]
pub enum SomaFmAction {
    /// The whole catalogue is given up: the channel has no playlist, or its
    /// PLS file could not be fetched.
    Abort,
    /// The PLS file at this address must be fetched first.
    Fetch(String),
    /// The channel is read.
    Push(ResolvedChannel),
}

/// The next step in reading channel `ch`, where `fetched` is `None` before any
/// fetch, `Some(None)` after a failed fetch of its PLS file and
/// `Some(Some(content))` after a successful one. The channel is played from
/// its chosen playlist (see `chosen_playlist`); a PLS playlist is fetched and
/// read (see `somafm_channel`).
pub fn somafm_step(ch: &SomaFmChannel, fetched: Option<Option<String>>) -> (r: SomaFmAction)
    ensures
        ({
            let ps = views(ch.playlists@);
            let i = chosen_playlist(ps);
            if i < 0 {
                r is Abort
            } else {
                let url = ps[i].url;
                if ends_with_ci(url, ".pls"@) {
                    match fetched {
                        None => r matches SomaFmAction::Fetch(u) && u@ == url,
                        Some(None) => r is Abort,
                        Some(Some(c)) => r matches SomaFmAction::Push(chan) && chan@ == somafm_channel_of(
                            ch,
                            url,
                            Some(c@),
                        ),
                    }
                } else {
                    r matches SomaFmAction::Push(chan) && chan@ == somafm_channel_of(ch, url, None)
                }
            }
        }),
{
    let i = match best_playlist(ch) {
        Some(i) => i,
        None => return SomaFmAction::Abort,
    };
    let url = &ch.playlists[i].url;
    proof {
        assert(views(ch.playlists@)[i as int] == ch.playlists@[i as int]@);
    }
    if needs_pls_fetch(url.as_str()) {
        match fetched {
            None => SomaFmAction::Fetch(url.clone()),
            Some(None) => SomaFmAction::Abort,
            Some(Some(c)) => SomaFmAction::Push(somafm_channel(ch, url.as_str(), Some(c.as_str()))),
        }
    } else {
        SomaFmAction::Push(somafm_channel(ch, url.as_str(), None))
    }
}

/// The `SomaFM` group of the given channels.
pub fn somafm_source(channels: Vec<ResolvedChannel>) -> (r: ResolvedSource)
    ensures
        r@ == (SourceView { group_name: "SomaFM"@, channels: channel_views(channels@) }),
{
    ResolvedSource { group_name: "SomaFM".to_owned(), channels }
}

// ---------------------------------------------------------------------------
// The Radio Browser station list
// ---------------------------------------------------------------------------

/// One station of a Radio Browser answer.
#[derive(Debug)]
pub struct RadioBrowserStation {
    pub name: Option<String>,
    pub url: Option<String>,
    pub url_resolved: Option<String>,
    pub bitrate: Option<u32>,
    pub codec: Option<String>,
    pub favicon: Option<String>,
    pub tags: Option<String>,
    pub country: Option<String>,
    pub language: Option<String>,
}

pub struct BrowserStationView {
    pub name: Option<Seq<char>>,
    pub url: Option<Seq<char>>,
    pub url_resolved: Option<Seq<char>>,
    pub bitrate: Option<u32>,
    pub favicon: Option<Seq<char>>,
}

impl View for RadioBrowserStation {
    type V = BrowserStationView;

    open spec fn view(&self) -> BrowserStationView {
        BrowserStationView {
            name: opt_str(self.name),
            url: opt_str(self.url),
            url_resolved: opt_str(self.url_resolved),
            bitrate: self.bitrate,
            favicon: opt_str(self.favicon),
        }
    }
}

/// The stream address of a station: the resolved one, else the given one.
pub open spec fn rb_stream(s: BrowserStationView) -> Option<Seq<char>> {
    match s.url_resolved {
        Some(u) => Some(u),
        None => s.url,
    }
}

/// The trimmed name of a station, `Unknown Radio` when it has none.
pub open spec fn rb_name(s: BrowserStationView) -> Seq<char> {
    trim(
        match s.name {
            Some(n) => n,
            None => "Unknown Radio"@,
        },
    )
}

pub open spec fn rb_channel(s: BrowserStationView) -> ChannelView {
    ChannelView { name: rb_name(s), stream_url: rb_stream(s).unwrap(), artwork_url: s.favicon }
}

/// An earlier station has the same stream address as station `i`.
pub open spec fn stream_seen(st: Seq<BrowserStationView>, i: int) -> bool {
    exists|j: int| 0 <= j < i && rb_stream(#[trigger] st[j]) == rb_stream(st[i])
}

/// One channel per station whose stream address no earlier station had, in
/// station order.
pub open spec fn rb_channels(st: Seq<BrowserStationView>) -> Seq<ChannelView>
    decreases st.len(),
{
    if st.len() == 0 {
        Seq::empty()
    } else {
        let prev = rb_channels(st.drop_last());
        if stream_seen(st, st.len() - 1) {
            prev
        } else {
            prev.push(rb_channel(st.last()))
        }
    }
}

/// A Radio Browser answer is read when it is not empty, its first station has
/// a name or an address, and every station has a stream address.
pub open spec fn rb_accepts(st: Seq<BrowserStationView>) -> bool {
    &&& st.len() > 0
    &&& !(st[0].name is None && st[0].url is None)
    &&& forall|i: int| 0 <= i < st.len() ==> (#[trigger] rb_stream(st[i])) is Some
    &&& rb_channels(st).len() > 0
}

/// Some station has stream address `u`.
pub open spec fn some_station_streams(st: Seq<BrowserStationView>, u: Seq<char>) -> bool {
    exists|j: int| 0 <= j < st.len() && rb_stream(#[trigger] st[j]) == Some(u)
}

/// When every station has a stream address, no two channels read from a
/// Radio Browser list share a stream address, and each channel plays the
/// stream of one of the stations.
pub proof fn lemma_rb_channels_distinct(st: Seq<BrowserStationView>)
    requires
        forall|i: int| 0 <= i < st.len() ==> (#[trigger] rb_stream(st[i])) is Some,
    ensures
        forall|i: int, j: int|
            0 <= i < j < rb_channels(st).len() ==> (#[trigger] rb_channels(st)[i]).stream_url
                != (#[trigger] rb_channels(st)[j]).stream_url,
        forall|i: int|
            0 <= i < rb_channels(st).len() ==> some_station_streams(
                st,
                (#[trigger] rb_channels(st)[i]).stream_url,
            ),
    decreases st.len(),
{
    if st.len() > 0 {
        let t = st.drop_last();
        assert forall|i: int| 0 <= i < t.len() implies (#[trigger] rb_stream(t[i])) is Some by {
            assert(t[i] == st[i]);
        }
        lemma_rb_channels_distinct(t);
        let prev = rb_channels(t);
        let last = st.len() - 1;
        assert forall|i: int| 0 <= i < prev.len() implies some_station_streams(st, #[trigger] prev[i].stream_url) by {
            assert(some_station_streams(t, prev[i].stream_url));
            let j = choose|j: int| 0 <= j < t.len() && rb_stream(#[trigger] t[j]) == Some(prev[i].stream_url);
            assert(st[j] == t[j]);
        }
        if !stream_seen(st, last) {
            let cur = rb_channels(st);
            assert(cur == prev.push(rb_channel(st[last])));
            assert(rb_stream(st[last]) is Some);
            assert forall|i: int| 0 <= i < prev.len() implies (#[trigger] prev[i]).stream_url != rb_channel(st[last]).stream_url by {
                assert(some_station_streams(t, prev[i].stream_url));
                let j = choose|j: int| 0 <= j < t.len() && rb_stream(#[trigger] t[j]) == Some(prev[i].stream_url);
                assert(st[j] == t[j]);
                if prev[i].stream_url == rb_channel(st[last]).stream_url {
                    assert(rb_stream(st[j]) == rb_stream(st[last]));
                    assert(stream_seen(st, last));
                }
            }
            assert forall|i: int, j: int| 0 <= i < j < cur.len() implies (#[trigger] cur[i]).stream_url != (#[trigger] cur[j]).stream_url by {
                if j == prev.len() {
                    assert(cur[i] == prev[i]);
                } else {
                    assert(cur[i] == prev[i] && cur[j] == prev[j]);
                }
            }
            assert forall|i: int| 0 <= i < cur.len() implies some_station_streams(st, (#[trigger] cur[i]).stream_url) by {
                if i == prev.len() {
                    assert(rb_stream(st[last]) == Some(cur[i].stream_url));
                } else {
                    assert(cur[i] == prev[i]);
                }
            }
        }
    }
}

/// Every station that has a stream address which no earlier station had
/// yields a channel: one with that stream address, the station's trimmed name
/// (`Unknown Radio` without one) and its favicon as artwork.
pub proof fn lemma_rb_channels_complete(st: Seq<BrowserStationView>)
    ensures
        forall|i: int|
            0 <= i < st.len() && rb_stream(st[i]) is Some && (forall|j: int|
                0 <= j < i ==> rb_stream(#[trigger] st[j]) != rb_stream(st[i])) ==> exists|k: int|
                0 <= k < rb_channels(st).len() && Some(
                    (#[trigger] rb_channels(st)[k]).stream_url,
                ) == rb_stream(st[i]) && rb_channels(st)[k].name == trim(
                    match st[i].name {
                        Some(n) => n,
                        None => "Unknown Radio"@,
                    },
                ) && rb_channels(st)[k].artwork_url == st[i].favicon,
    decreases st.len(),
{
    if st.len() > 0 {
        let t = st.drop_last();
        let n = st.len() - 1;
        lemma_rb_channels_complete(t);
        let prev = rb_channels(t);
        let cur = rb_channels(st);
        assert forall|i: int|
            0 <= i < st.len() && rb_stream(st[i]) is Some && (forall|j: int|
                0 <= j < i ==> rb_stream(#[trigger] st[j]) != rb_stream(st[i])) implies exists|k: int|
                0 <= k < cur.len() && Some((#[trigger] cur[k]).stream_url) == rb_stream(st[i])
                    && cur[k].name == trim(
                    match st[i].name {
                        Some(nm) => nm,
                        None => "Unknown Radio"@,
                    },
                ) && cur[k].artwork_url == st[i].favicon by {
            if i == n {
                assert(!stream_seen(st, n));
                assert(cur == prev.push(rb_channel(st[n])));
                assert(cur[prev.len() as int] == rb_channel(st[n]));
            } else {
                assert(t[i] == st[i]);
                assert forall|j: int| 0 <= j < i implies rb_stream(#[trigger] t[j]) != rb_stream(t[i]) by {
                    assert(t[j] == st[j]);
                }
                let k = choose|k: int|
                    0 <= k < prev.len() && Some((#[trigger] prev[k]).stream_url) == rb_stream(t[i])
                        && prev[k].name == trim(
                        match t[i].name {
                            Some(nm) => nm,
                            None => "Unknown Radio"@,
                        },
                    ) && prev[k].artwork_url == t[i].favicon;
                assert(cur[k] == prev[k]);
            }
        }
    }
}

pub open spec fn rb_match(s: BrowserStationView, u: Seq<char>) -> bool {
    s.url_resolved == Some(u) || s.url == Some(u)
}

/// The bitrate by which a stream is ranked: that of the first station whose
/// resolved or given address is `u` (0 when it has none or none matches).
pub open spec fn rb_rate(st: Seq<BrowserStationView>, u: Seq<char>) -> u32
    decreases st.len(),
{
    if st.len() == 0 {
        0
    } else if rb_match(st[0], u) {
        match st[0].bitrate {
            Some(b) => b,
            None => 0,
        }
    } else {
        rb_rate(st.drop_first(), u)
    }
}

pub open spec fn rb_key(st: Seq<BrowserStationView>) -> spec_fn(ChannelView) -> u32 {
    |c: ChannelView| rb_rate(st, c.stream_url)
}

fn opt_eq(o: &Option<String>, u: &String) -> (r: bool)
    ensures
        r == (opt_str(*o) == Some(u@)),
{
    match o {
        Some(s) => *s == *u,
        None => false,
    }
}

fn rate_for(st: &Vec<RadioBrowserStation>, u: &String) -> (r: u32)
    ensures
        r == rb_rate(views(st@), u@),
{
    let ghost sv = views(st@);
    let mut i: usize = 0;
    assert(sv.skip(0) =~= sv);
    while i < st.len()
        invariant
            i <= st@.len() == sv.len(),
            sv == views(st@),
            rb_rate(sv, u@) == rb_rate(sv.skip(i as int), u@),
        decreases st.len() - i,
    {
        proof {
            assert(sv.skip(i as int)[0] == sv[i as int]);
            assert(sv[i as int] == st@[i as int]@);
            assert(sv.skip(i as int).drop_first() =~= sv.skip(i + 1));
        }
        if opt_eq(&st[i].url_resolved, u) || opt_eq(&st[i].url, u) {
            return match st[i].bitrate {
                Some(b) => b,
                None => 0,
            };
        }
        i += 1;
    }
    0
}

/// A list of channels that holds, key for key, what `rb_channels` holds has a
/// channel for the station at `i` when no earlier station had its stream
/// address.
proof fn lemma_rb_source_has(sv: Seq<BrowserStationView>, chs: Seq<ResolvedChannel>, i: int)
    requires
        forall|j: int| 0 <= j < sv.len() ==> (#[trigger] rb_stream(sv[j])) is Some,
        same_per_key(channel_views(chs), rb_channels(sv), rb_key(sv)),
        0 <= i < sv.len(),
        forall|j: int| 0 <= j < i ==> rb_stream(#[trigger] sv[j]) != rb_stream(sv[i]),
    ensures
        exists|k: int| 0 <= k < chs.len() && Some((#[trigger] chs[k])@.stream_url) == rb_stream(sv[i]),
{
    let rc = rb_channels(sv);
    let out = channel_views(chs);
    assert(rb_stream(sv[i]) is Some);
    lemma_rb_channels_complete(sv);
    let k = choose|k: int|
        0 <= k < rc.len() && Some((#[trigger] rc[k]).stream_url) == rb_stream(sv[i]) && rc[k].name
            == trim(
            match sv[i].name {
                Some(nm) => nm,
                None => "Unknown Radio"@,
            },
        ) && rc[k].artwork_url == sv[i].favicon;
    lemma_same_per_key_contains(out, rc, rb_key(sv), k);
    let m = choose|m: int| 0 <= m < out.len() && out[m] == rc[k];
    assert(out[m] == chs[m]@);
}

/// The `Radio Browser` group read from a station list: one channel per
/// distinct stream address (see `rb_channels`), sorted by descending bitrate
/// (see `rb_rate`), stations of equal bitrate kept in list order; `None` when
/// the list is not read (see `rb_accepts`).
#[verifier::spinoff_prover]
pub fn radio_browser_source(stations: &Vec<RadioBrowserStation>) -> (r: Option<ResolvedSource>)
    ensures
        match r {
            None => !rb_accepts(views(stations@)),
            Some(s) => {
                &&& rb_accepts(views(stations@))
                &&& s.group_name@ == "Radio Browser"@
                &&& sorted_desc(channel_views(s.channels@), rb_key(views(stations@)))
                &&& same_per_key(
                    channel_views(s.channels@),
                    rb_channels(views(stations@)),
                    rb_key(views(stations@)),
                )
                &&& forall|i: int|
                    #![trigger rb_stream(views(stations@)[i])]
                    0 <= i < stations@.len() && (forall|j: int|
                        0 <= j < i ==> rb_stream(#[trigger] views(stations@)[j]) != rb_stream(
                            views(stations@)[i],
                        )) ==> exists|k: int|
                        0 <= k < s.channels@.len() && Some((#[trigger] s.channels@[k])@.stream_url)
                            == rb_stream(views(stations@)[i])
            },
        },
{
    let ghost sv = views(stations@);
    if stations.len() == 0 {
        return None;
    }
    proof {
        assert(sv[0] == stations@[0]@);
    }
    if stations[0].name.is_none() && stations[0].url.is_none() {
        return None;
    }
    let mut channels: Vec<ResolvedChannel> = Vec::new();
    let mut streams: Vec<String> = Vec::new();
    let mut i: usize = 0;
    assert(sv.take(0) =~= Seq::<BrowserStationView>::empty());
    while i < stations.len()
        invariant
            i <= stations@.len() == sv.len(),
            sv == views(stations@),
            streams@.len() == i,
            forall|j: int| 0 <= j < i ==> (#[trigger] rb_stream(sv[j])) is Some,
            forall|j: int| 0 <= j < i ==> Some((#[trigger] streams@[j])@) == rb_stream(sv[j]),
            channel_views(channels@) == rb_channels(sv.take(i as int)),
        decreases stations.len() - i,
    {
        let s = &stations[i];
        proof {
            assert(sv[i as int] == s@);
        }
        let stream: &String = match &s.url_resolved {
            Some(u) => u,
            None => match &s.url {
                Some(u) => u,
                None => {
                    proof {
                        assert(rb_stream(sv[i as int]) is None);
                    }
                    return None;
                },
            },
        };
        let mut seen = false;
        let mut j: usize = 0;
        while j < i
            invariant
                j <= i,
                i < sv.len(),
                streams@.len() == i,
                forall|k: int| 0 <= k < i ==> Some((#[trigger] streams@[k])@) == rb_stream(sv[k]),
                Some(stream@) == rb_stream(sv[i as int]),
                seen == exists|k: int| 0 <= k < j && rb_stream(#[trigger] sv[k]) == rb_stream(sv[i as int]),
            decreases i - j,
        {
            if streams[j] == *stream {
                seen = true;
            }
            proof {
                if !seen {
                    assert forall|k: int| 0 <= k < j + 1 implies rb_stream(#[trigger] sv[k]) != rb_stream(sv[i as int]) by {
                        if k == j {
                            assert(streams@[k]@ != stream@);
                        }
                    }
                } else {
                    assert(0 <= j < j + 1);
                    if streams@[j as int]@ == stream@ {
                        assert(rb_stream(sv[j as int]) == rb_stream(sv[i as int]));
                    }
                }
            }
            j += 1;
        }
        let ghost pre = sv.take(i as int);
        let ghost nxt = sv.take(i + 1);
        proof {
            assert(nxt.drop_last() =~= pre);
            assert(nxt.last() == sv[i as int]);
            assert(stream_seen(nxt, i as int) == seen) by {
                if seen {
                    let k = choose|k: int| 0 <= k < i && rb_stream(#[trigger] sv[k]) == rb_stream(sv[i as int]);
                    assert(nxt[k] == sv[k]);
                }
                if stream_seen(nxt, i as int) {
                    let k = choose|k: int| 0 <= k < i && rb_stream(#[trigger] nxt[k]) == rb_stream(nxt[i as int]);
                    assert(nxt[k] == sv[k]);
                }
            }
        }
        let ghost channels_old = channels@;
        streams.push(stream.clone());
        if !seen {
            let raw = match &s.name {
                Some(n) => chars_of(n.as_str()),
                None => chars_of("Unknown Radio"),
            };
            let name = trim_chars(&raw);
            let ch = ResolvedChannel {
                name: string_of(&name),
                stream_url: stream.clone(),
                artwork_url: clone_opt(&s.favicon),
            };
            channels.push(ch);
            proof {
                assert(channel_views(channels@) =~= channel_views(channels_old).push(rb_channel(sv[i as int])));
            }
        }
        proof {
            assert forall|k: int| 0 <= k < i + 1 implies Some((#[trigger] streams@[k])@) == rb_stream(sv[k]) by {}
        }
        i += 1;
    }
    proof {
        assert(sv.take(stations.len() as int) =~= sv);
    }
    if channels.len() == 0 {
        return None;
    }
    assert(rb_accepts(sv)) by {
        assert(channel_views(channels@).len() == channels@.len());
    }
    let ghost key = rb_key(sv);
    let mut keys: Vec<u32> = Vec::new();
    let mut k: usize = 0;
    while k < channels.len()
        invariant
            k <= channels@.len(),
            sv == views(stations@),
            key == rb_key(sv),
            keys@.len() == k,
            forall|m: int| 0 <= m < k ==> keys@[m] == key(#[trigger] channels@[m]@),
        decreases channels.len() - k,
    {
        let rt = rate_for(stations, &channels[k].stream_url);
        keys.push(rt);
        k += 1;
    }
    let ghost before = channel_views(channels@);
    proof {
        assert(views(channels@) =~= before);
    }
    let sorted = sort_desc_stable(channels, keys, Ghost(key));
    proof {
        assert(channel_views(sorted@) =~= views(sorted@));
    }
    let out = ResolvedSource { group_name: "Radio Browser".to_owned(), channels: sorted };
    proof {
        assert forall|i: int|
            #![trigger rb_stream(sv[i])]
            0 <= i < stations@.len() && (forall|j: int|
                0 <= j < i ==> rb_stream(#[trigger] sv[j]) != rb_stream(sv[i])) implies exists|k: int|
                0 <= k < out.channels@.len() && Some((#[trigger] out.channels@[k])@.stream_url)
                    == rb_stream(sv[i]) by {
            lemma_rb_source_has(sv, out.channels@, i);
        }
    }
    Some(out)
}

} // verus!
