use cosmic_radio::artwork::{artwork_requests, cache_filename, cache_is_fresh, ArtworkCache};
use cosmic_radio::config::Station;
use std::path::PathBuf;

#[test]
fn cache_names_are_sha256_hex() {
    assert_eq!(cache_filename(""), "e3b0c44298fc1c149afbf4c8996fb92427ae41e4649b934ca495991b7852b855.png");
    assert_eq!(cache_filename("abc"), "ba7816bf8f01cfea414140de5dae2223b00361a396177a9cb410ff61f20015ad.png");
}

#[test]
fn cache_records_and_keeps_fresh_entries() {
    let mut c = ArtworkCache::new();
    assert!(c.get(&0).is_none());
    assert!(!c.record_artwork(0, PathBuf::from("/a.png"), true));
    assert_eq!(c.get(&0), Some(&PathBuf::from("/a.png")));
    assert!(!c.record_artwork(0, PathBuf::from("/b.png"), true));
    assert_eq!(c.get(&0), Some(&PathBuf::from("/a.png")));
    assert!(c.record_artwork(0, PathBuf::from("/c.png"), false));
    assert_eq!(c.get(&0), Some(&PathBuf::from("/c.png")));
    assert!(c.get(&1).is_none());
}

#[test]
fn requests_skip_missing_and_empty_artwork() {
    let s = |a: Option<&str>| Station { name: "n".into(), url: "u".into(), artwork: a.map(String::from), auto_add: None };
    let r = artwork_requests(&[s(Some("http://x")), s(None), s(Some("")), s(Some("http://y"))]);
    assert_eq!(r, vec![(0, "http://x".to_string()), (3, "http://y".to_string())]);
}

#[test]
fn cache_names_have_fixed_length() {
    assert_eq!(cache_filename("https://img.example/art.png").len(), 68);
    assert!(cache_filename("x").ends_with(".png"));
}

#[test]
fn cache_freshness_is_five_days() {
    assert!(cache_is_fresh(Some(0)));
    assert!(cache_is_fresh(Some(431_999)));
    assert!(!cache_is_fresh(Some(432_000)));
    assert!(!cache_is_fresh(None));
}
