use cosmic_radio::pls::{parse_pls_entries, resolve_pls, select_best_entry, PlsEntry};

const SAMPLE: &str = "[playlist]\nNumberOfEntries=2\nFile1=http://one.example/stream\nTitle1=One FM\nBitrate1=64\nFile2=http://two.example/stream\nTitle2=Two FM\nBitrate2=128\nVersion=2\n";

#[test]
fn parse_collects_numbered_entries_in_order() {
    let entries = parse_pls_entries(SAMPLE);
    assert_eq!(entries.len(), 2);
    assert_eq!(entries[0].file, "http://one.example/stream");
    assert_eq!(entries[0].title.as_deref(), Some("One FM"));
    assert_eq!(entries[0].bitrate, Some(64));
    assert_eq!(entries[1].file, "http://two.example/stream");
    assert_eq!(entries[1].bitrate, Some(128));
}

#[test]
fn parse_ignores_case_and_trims_values() {
    let entries = parse_pls_entries("  FILE3 =x\n  file3=  http://a  \r\nTITLE3=  Name \nbitrate3= 96 \n");
    // "FILE3 " does not parse as a number, so only the second line counts.
    assert_eq!(entries.len(), 1);
    assert_eq!(entries[0].file, "http://a");
    assert_eq!(entries[0].title.as_deref(), Some("Name"));
    assert_eq!(entries[0].bitrate, Some(96));
}

#[test]
fn parse_later_lines_overwrite_and_bad_bitrate_is_skipped() {
    let entries = parse_pls_entries("File1=a\nFile1=b\nBitrate1=fast\nBitrate2=zzz\nFile+4=c\n");
    assert_eq!(entries.len(), 2);
    assert_eq!(entries[0].file, "b");
    assert_eq!(entries[0].bitrate, None);
    assert_eq!(entries[1].file, "c");
}

#[test]
fn parse_title_only_entry_has_empty_file() {
    let entries = parse_pls_entries("Title7=Only a title\n");
    assert_eq!(entries.len(), 1);
    assert_eq!(entries[0].file, "");
    assert_eq!(entries[0].title.as_deref(), Some("Only a title"));
}

#[test]
fn parse_number_overflow_is_rejected() {
    let entries = parse_pls_entries("File4294967296=x\nFile4294967295=y\n");
    assert_eq!(entries.len(), 1);
    assert_eq!(entries[0].file, "y");
}

#[test]
fn resolve_picks_highest_bitrate() {
    let r = resolve_pls(SAMPLE).unwrap();
    assert_eq!(r.0, "http://two.example/stream");
    assert_eq!(r.1, "Two FM");
    assert_eq!(r.2, Some(128));
}

#[test]
fn resolve_ties_pick_last_and_missing_title_is_empty() {
    let r = resolve_pls("File1=a\nFile2=b\n").unwrap();
    assert_eq!(r, ("b".to_string(), String::new(), None));
}

#[test]
fn resolve_without_entries_is_none() {
    assert_eq!(resolve_pls("[playlist]\nVersion=2\n"), None);
    assert_eq!(resolve_pls(""), None);
}

#[test]
fn select_best_on_empty_is_none() {
    let none: Vec<PlsEntry> = Vec::new();
    assert!(select_best_entry(&none).is_none());
    let one = vec![PlsEntry { file: "f".to_string(), title: None, bitrate: None }];
    assert_eq!(select_best_entry(&one).unwrap().file, "f");
}
