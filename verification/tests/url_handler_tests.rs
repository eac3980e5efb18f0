use cosmic_radio::url_handler::{
    best_playlist, classify_response, derive_name_from_url, needs_pls_fetch, radio_browser_source,
    resolve_response, somafm_channel, somafm_source, somafm_step, RadioBrowserStation,
    ResolvedChannel, ResolvedSource, ResponseKind, SomaFmAction, SomaFmChannel, SomaFmPlaylist,
};

#[test]
fn name_from_path_segment() {
    assert_eq!(derive_name_from_url("https://ice1.somafm.com/groovesalad-128-mp3"), "groovesalad 128 mp3");
    assert_eq!(derive_name_from_url("http://example.com/live/my_station.mp3?token=1/2"), "my station");
    assert_eq!(derive_name_from_url("http://example.com/radio/"), "radio");
}

#[test]
fn name_falls_back_to_host_or_unknown() {
    assert_eq!(derive_name_from_url("http://example.com/"), "example");
    assert_eq!(derive_name_from_url("//"), "");
    assert_eq!(derive_name_from_url("/"), "Unknown");
    assert_eq!(derive_name_from_url("http://example.com/.mp3"), "example.com");
    assert_eq!(derive_name_from_url("http://example.com/--.aac"), "example.com");
    assert_eq!(derive_name_from_url(""), "Unknown");
    assert_eq!(derive_name_from_url("plain"), "plain");
}

#[test]
fn classify_by_body_then_content_type() {
    assert_eq!(classify_response("audio/mpeg", "  [playlist]\nFile1=x"), ResponseKind::Playlist);
    assert_eq!(classify_response("", "{\"channels\": []}"), ResponseKind::SomaFm);
    assert_eq!(classify_response("", "\n[ {} ]"), ResponseKind::RadioBrowser);
    assert_eq!(classify_response("Text/HTML; charset=utf-8", "<html>"), ResponseKind::Html);
    assert_eq!(classify_response("application/xhtml+xml", "<html>"), ResponseKind::Html);
    assert_eq!(classify_response("audio/mpeg", "ID3..."), ResponseKind::Stream);
    assert_eq!(classify_response("video/whatever", "xyz"), ResponseKind::Stream);
}

#[test]
fn response_playlist_gives_uncategorised_channel() {
    let r = resolve_response("http://x/a.pls", "audio/x-scpls", "[playlist]\nFile1=http://s\nTitle1=Station\n", None).unwrap();
    assert_eq!(r.group_name, "Uncategorised");
    assert_eq!(r.channels.len(), 1);
    assert_eq!(r.channels[0].name, "Station");
    assert_eq!(r.channels[0].stream_url, "http://s");
    assert_eq!(r.channels[0].artwork_url, None);
}

#[test]
fn response_errors() {
    assert_eq!(resolve_response("u", "", "[playlist]\nnothing", None).unwrap_err(), "Failed to parse PLS file");
    assert_eq!(resolve_response("u", "", "{}", None).unwrap_err(), "Unrecognised JSON format");
    assert_eq!(resolve_response("u", "", "[1]", None).unwrap_err(), "Unrecognised JSON format");
    assert_eq!(
        resolve_response("u", "text/html", "<html>", None).unwrap_err(),
        "URL returned an HTML page, expected an audio stream, PLS playlist, or JSON API. Try https://api.somafm.com/channels.json for SomaFM."
    );
}

#[test]
fn response_json_passes_through() {
    let src = ResolvedSource { group_name: "SomaFM".to_string(), channels: Vec::new() };
    let r = resolve_response("u", "application/json", "{\"channels\":[]}", Some(src)).unwrap();
    assert_eq!(r.group_name, "SomaFM");
}

#[test]
fn response_stream_named_after_address() {
    let r = resolve_response("http://radio.example/jazz-fm.mp3", "audio/mpeg", "binary", None).unwrap();
    assert_eq!(r.group_name, "Uncategorised");
    assert_eq!(r.channels[0].name, "jazz fm");
    assert_eq!(r.channels[0].stream_url, "http://radio.example/jazz-fm.mp3");
}

fn pl(url: &str, format: Option<&str>, quality: Option<&str>) -> SomaFmPlaylist {
    SomaFmPlaylist { url: url.to_string(), format: format.map(String::from), quality: quality.map(String::from) }
}

fn channel(playlists: Vec<SomaFmPlaylist>) -> SomaFmChannel {
    SomaFmChannel {
        title: "Groove Salad".to_string(),
        description: None,
        image: Some("http://img/small.png".to_string()),
        largeimage: None,
        xlimage: None,
        playlists,
    }
}

#[test]
fn somafm_prefers_highest_mp3() {
    let ch = channel(vec![
        pl("a.pls", Some("aac"), Some("highest")),
        pl("b.pls", Some("mp3"), Some("highest")),
        pl("c.pls", Some("mp3"), Some("low")),
        pl("d.pls", Some("aacp"), Some("highest")),
    ]);
    assert_eq!(best_playlist(&ch), Some(1));
}

#[test]
fn somafm_ties_pick_last_and_fallback_first() {
    let ch = channel(vec![pl("a", Some("mp3"), Some("highest")), pl("b", Some("mp3"), Some("highest"))]);
    assert_eq!(best_playlist(&ch), Some(1));
    let ch = channel(vec![pl("a", Some("mp3"), Some("high")), pl("b", None, None)]);
    assert_eq!(best_playlist(&ch), Some(0));
    let ch = channel(vec![]);
    assert_eq!(best_playlist(&ch), None);
}

#[test]
fn somafm_channel_resolves_pls_and_artwork() {
    let ch = channel(vec![]);
    assert!(needs_pls_fetch("http://somafm.com/groovesalad.PLS"));
    assert!(!needs_pls_fetch("http://somafm.com/groovesalad.mp3"));
    let c = somafm_channel(&ch, "http://p.pls", Some("[playlist]\nFile1=http://stream1\n"));
    assert_eq!(c.name, "Groove Salad");
    assert_eq!(c.stream_url, "http://stream1");
    assert_eq!(c.artwork_url.as_deref(), Some("http://img/small.png"));
    let c = somafm_channel(&ch, "http://p.pls", Some("garbage"));
    assert_eq!(c.stream_url, "http://p.pls");
    let mut ch2 = channel(vec![]);
    ch2.largeimage = Some("http://img/large.png".to_string());
    let c = somafm_channel(&ch2, "http://direct.mp3", None);
    assert_eq!(c.stream_url, "http://direct.mp3");
    assert_eq!(c.artwork_url.as_deref(), Some("http://img/large.png"));
    let src = somafm_source(vec![c]);
    assert_eq!(src.group_name, "SomaFM");
    assert_eq!(src.channels.len(), 1);
}

fn st(name: Option<&str>, url: Option<&str>, resolved: Option<&str>, bitrate: Option<u32>) -> RadioBrowserStation {
    RadioBrowserStation {
        name: name.map(String::from),
        url: url.map(String::from),
        url_resolved: resolved.map(String::from),
        bitrate,
        codec: None,
        favicon: Some("fav".to_string()),
        tags: None,
        country: None,
        language: None,
    }
}

fn names(s: &ResolvedSource) -> Vec<&str> {
    s.channels.iter().map(|c: &ResolvedChannel| c.name.as_str()).collect()
}

#[test]
fn radio_browser_dedups_and_sorts_by_bitrate() {
    let stations = vec![
        st(Some(" Low "), Some("http://low"), None, Some(64)),
        st(Some("High"), Some("http://x"), Some("http://high"), Some(320)),
        st(Some("Dup"), Some("http://low"), None, Some(999)),
        st(None, Some("http://mid"), None, Some(128)),
        st(Some("Same1"), Some("http://s1"), None, Some(128)),
    ];
    let r = radio_browser_source(&stations).unwrap();
    assert_eq!(r.group_name, "Radio Browser");
    assert_eq!(names(&r), vec!["High", "Unknown Radio", "Same1", "Low"]);
    assert_eq!(r.channels[0].stream_url, "http://high");
    assert_eq!(r.channels[0].artwork_url.as_deref(), Some("fav"));
}

#[test]
fn radio_browser_rate_comes_from_first_matching_station() {
    let stations = vec![
        st(Some("A"), Some("http://b"), Some("http://a"), None),
        st(Some("B"), None, Some("http://b"), Some(500)),
        st(Some("C"), Some("http://c"), None, Some(10)),
    ];
    let r = radio_browser_source(&stations).unwrap();
    // B's stream is first matched by A's `url`, whose bitrate is absent (0).
    assert_eq!(names(&r), vec!["C", "A", "B"]);
}

#[test]
fn radio_browser_rejections() {
    assert!(radio_browser_source(&vec![]).is_none());
    assert!(radio_browser_source(&vec![st(None, None, Some("http://r"), None)]).is_none());
    assert!(radio_browser_source(&vec![st(Some("A"), Some("http://a"), None, None), st(Some("B"), None, None, None)]).is_none());
}

#[test]
fn somafm_steps() {
    assert!(matches!(somafm_step(&channel(vec![]), None), SomaFmAction::Abort));
    let direct = channel(vec![pl("http://direct.mp3", Some("mp3"), Some("highest"))]);
    match somafm_step(&direct, None) {
        SomaFmAction::Push(c) => assert_eq!(c.stream_url, "http://direct.mp3"),
        _ => panic!("expected push"),
    }
    let pls = channel(vec![pl("http://x/list.PLS", Some("mp3"), Some("highest"))]);
    match somafm_step(&pls, None) {
        SomaFmAction::Fetch(u) => assert_eq!(u, "http://x/list.PLS"),
        _ => panic!("expected fetch"),
    }
    assert!(matches!(somafm_step(&pls, Some(None)), SomaFmAction::Abort));
    match somafm_step(&pls, Some(Some("File1=http://s\n".to_string()))) {
        SomaFmAction::Push(c) => assert_eq!(c.stream_url, "http://s"),
        _ => panic!("expected push"),
    }
}
