use cosmic_radio::config::{Config, ConfigManager, Station, StationGroup};
use cosmic_radio::state::{marquee_text, PlaybackAction, PlayerState};
use std::path::PathBuf;

fn station(name: &str, url: &str, art: Option<&str>) -> Station {
    Station { name: name.into(), url: url.into(), artwork: art.map(String::from), auto_add: None }
}

#[test]
fn new_state() {
    let s = PlayerState::new(3);
    assert_eq!(s.group_collapsed, vec![false, false, false]);
    assert!(!s.is_playing);
    assert!(s.show_play_icon());
}

#[test]
fn select_and_toggle() {
    let flat = vec![station("A", "http://a", Some("http://art")), station("B", "http://b", Some(""))];
    let mut s = PlayerState::new(1);
    let req = s.select_station(0, &flat).unwrap();
    assert_eq!(req.url, "http://a");
    assert_eq!(req.name, "A");
    assert_eq!(req.artwork.as_deref(), Some("http://art"));
    assert!(s.is_playing);
    assert!(!s.show_play_icon());
    assert!(s.select_station(1, &flat).unwrap().artwork.is_none());
    assert!(s.select_station(5, &flat).is_none());
    assert_eq!(s.current_station, Some(5));
    s.select_station(1, &flat);
    assert!(matches!(s.toggle_playback(&flat), PlaybackAction::Stop));
    match s.toggle_playback(&flat) {
        PlaybackAction::Play(p) => assert_eq!(p.url, "http://b"),
        _ => panic!("expected play"),
    }
}

#[test]
fn toggle_replays_typed_stream() {
    let mut s = PlayerState::new(0);
    s.temp_stream_url = Some("http://t".into());
    s.temp_stream_name = None;
    match s.toggle_playback(&[]) {
        PlaybackAction::Play(p) => {
            assert_eq!(p.url, "http://t");
            assert_eq!(p.name, "");
        }
        _ => panic!("expected play"),
    }
    let mut s = PlayerState::new(0);
    assert!(matches!(s.toggle_playback(&[]), PlaybackAction::Nothing));
}

#[test]
fn url_submission() {
    let mut s = PlayerState::new(0);
    s.set_url_input("   ".into());
    assert_eq!(s.begin_submit_url(), None);
    s.set_url_input("  radio.example/stream ".into());
    s.toggle_url_input();
    assert_eq!(s.begin_submit_url(), Some("https://radio.example/stream".to_string()));
    assert!(!s.show_url_input);
    assert_eq!(s.url_input, "");
    assert!(s.is_playing);
    s.set_url_input("http://x".into());
    assert_eq!(s.begin_submit_url(), Some("http://x".to_string()));
}

#[test]
fn finishing_submission_adds_unknown_stations_once() {
    let cfg = Config { groups: vec![StationGroup { name: "Jazz".into(), stations: vec![station("A", "http://a", None)] }] };
    let mut m = ConfigManager::load(PathBuf::from("p"), cfg);
    let mut s = PlayerState::new(1);
    assert!(s.finish_submit_url(&mut m, "http://new".into(), "New".into(), "derived".into()));
    assert_eq!(s.now_playing, "New");
    assert_eq!(s.temp_stream_url.as_deref(), Some("http://new"));
    assert_eq!(m.group_count(), 2);
    assert_eq!(m.groups()[1].name, "Uncategorised");
    assert_eq!(m.groups()[1].stations[0].auto_add, Some(true));
    assert_eq!(s.group_collapsed, vec![false, false]);
    assert!(!s.finish_submit_url(&mut m, "http://other".into(), "New".into(), "x".into()));
    assert!(!s.finish_submit_url(&mut m, "http://a".into(), "Other".into(), "y".into()));
    assert_eq!(m.flat_stations().len(), 2);
}

#[test]
fn collapse_toggles() {
    let mut s = PlayerState::new(2);
    s.toggle_group_collapse(1);
    assert_eq!(s.group_collapsed, vec![false, true]);
    s.toggle_group_collapse(7);
    assert_eq!(s.group_collapsed, vec![false, true]);
}

#[test]
fn marquee_cycle() {
    let mut s = PlayerState::new(0);
    let text: String = "x".repeat(35); // two characters longer than shown
    s.marquee_tick(Some(text.clone()));
    assert_eq!((s.scroll_tick_counter, s.scroll_offset), (1, 0));
    for _ in 0..59 {
        s.marquee_tick(None);
    }
    assert_eq!((s.scroll_tick_counter, s.scroll_offset), (60, 0));
    // scrolling phase: (2 + 1) * 3 = 9 ticks
    let mut offsets = Vec::new();
    for _ in 0..9 {
        s.marquee_tick(None);
        offsets.push(s.scroll_offset);
    }
    assert_eq!(offsets, vec![0, 0, 0, 1, 1, 1, 2, 2, 2]);
    assert_eq!(s.scroll_tick_counter, 69);
    for _ in 0..60 {
        s.marquee_tick(None);
    }
    assert_eq!((s.scroll_tick_counter, s.scroll_offset), (129, 2));
    s.marquee_tick(None);
    assert_eq!((s.scroll_tick_counter, s.scroll_offset), (0, 0));
}

#[test]
fn marquee_short_text_stays() {
    let mut s = PlayerState::new(0);
    s.marquee_tick(Some("short".into()));
    s.marquee_tick(None);
    assert_eq!((s.scroll_tick_counter, s.scroll_offset), (0, 0));
    let mut e = PlayerState::new(0);
    e.scroll_tick_counter = 7;
    e.marquee_tick(None);
    assert_eq!(e.scroll_tick_counter, 7);
}

#[test]
fn marquee_window_text() {
    let t = "abcdefghijklmnopqrstuvwxyz0123456789"; // 36 characters
    assert_eq!(marquee_text(t, 0), "abcdefghijklmnopqrstuvwxyz0123456");
    assert_eq!(marquee_text(t, 2), "cdefghijklmnopqrstuvwxyz012345678");
    assert_eq!(marquee_text(t, 99), "defghijklmnopqrstuvwxyz0123456789");
    assert_eq!(marquee_text("short", 4), "short");
}

#[test]
fn display_text_falls_back_to_station_name() {
    let flat = vec![station("A", "http://a", None)];
    let mut s = PlayerState::new(0);
    assert_eq!(s.display_text(&flat), "No station selected");
    s.select_station(0, &flat);
    assert_eq!(s.display_text(&flat), "A");
    s.set_now_playing("Tag".into());
    assert_eq!(s.display_text(&flat), "Tag");
}

#[test]
fn typed_stream_without_title_is_named_after_address() {
    let mut m = ConfigManager::load(PathBuf::from("p"), Config { groups: vec![] });
    let mut s = PlayerState::new(0);
    assert!(s.finish_submit_url(&mut m, "http://stream".into(), "".into(), "jazz radio".into()));
    assert_eq!(s.now_playing, "jazz radio");
    assert_eq!(s.temp_stream_name.as_deref(), Some("jazz radio"));
    assert_eq!(m.flat_stations()[0].name, "jazz radio");
    assert_eq!(m.flat_stations()[0].url, "http://stream");
}

#[test]
fn marquee_accepts_long_text_up_to_the_limit_constant() {
    assert_eq!(cosmic_radio::state::MARQUEE_TEXT_LIMIT, 1_431_655_757);
}
