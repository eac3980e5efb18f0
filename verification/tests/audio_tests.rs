use cosmic_radio::audio::{is_pls_url, is_remote_url, playback_target, resolve_pls, tag_display};

#[test]
fn first_entry_of_pls() {
    assert_eq!(
        resolve_pls("[playlist]\nfile1=http://s1 \nTITLE1=Name One\nFile1=http://ignored\n"),
        Some(("http://s1".to_string(), "Name One".to_string()))
    );
    assert_eq!(resolve_pls("File1=http://a\nFile1=http://b\n"), Some(("http://b".to_string(), String::new())));
    assert_eq!(resolve_pls("Title1=only\n"), None);
}

#[test]
fn tags_shown() {
    assert_eq!(tag_display(Some("Artist".into()), Some("Song".into())), Some("Artist - Song".to_string()));
    assert_eq!(tag_display(None, Some("Song".into())), Some("Song".to_string()));
    assert_eq!(tag_display(Some("Artist".into()), None), Some("Artist".to_string()));
    assert_eq!(tag_display(None, None), None);
}

#[test]
fn address_tests() {
    assert!(is_pls_url("http://x/y.pls"));
    assert!(!is_pls_url("http://x/y.PLS"));
    assert!(is_remote_url("https://x"));
    assert!(is_remote_url("http://x"));
    assert!(!is_remote_url("/home/me/list.pls"));
}

#[test]
fn targets() {
    assert_eq!(playback_target("http://x.mp3", "Fallback", None), ("http://x.mp3".to_string(), "Fallback".to_string()));
    assert_eq!(playback_target("http://x.pls", "Fallback", None), ("http://x.pls".to_string(), "Fallback".to_string()));
    assert_eq!(
        playback_target("http://x.pls", "Fallback", Some(("http://s".into(), "T".into()))),
        ("http://s".to_string(), "T".to_string())
    );
}
