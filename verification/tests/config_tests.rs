use cosmic_radio::config::{config_from_layout, detect_layout, Config, ConfigLayout, ConfigManager, Station, StationGroup};
use std::path::PathBuf;

fn station(name: &str, url: &str) -> Station {
    Station { name: name.to_string(), url: url.to_string(), artwork: None, auto_add: None }
}

fn two_groups() -> Config {
    Config {
        groups: vec![
            StationGroup { name: "Jazz".to_string(), stations: vec![station("A", "http://a"), station("B", "http://b")] },
            StationGroup { name: "Favourites".to_string(), stations: vec![station("C", "http://c")] },
        ],
    }
}

#[test]
fn layout_detection() {
    assert_eq!(detect_layout("[[groups]]\nname = \"Jazz\"\nstations = []\n"), ConfigLayout::Grouped);
    assert_eq!(detect_layout("[[stations]]\nname = \"x\"\nurl = \"y\"\n"), ConfigLayout::Legacy);
    assert_eq!(detect_layout("stations = []\ngroups = []\n"), ConfigLayout::Grouped);
    assert_eq!(detect_layout("other = 1\n"), ConfigLayout::Unreadable);
    assert_eq!(detect_layout("this is = = not toml"), ConfigLayout::Unreadable);
    assert_eq!(detect_layout(""), ConfigLayout::Unreadable);
}

#[test]
fn legacy_layout_becomes_ungrouped() {
    let c = config_from_layout(ConfigLayout::Legacy, None, Some(vec![station("A", "http://a")]));
    assert_eq!(c.groups.len(), 1);
    assert_eq!(c.groups[0].name, "Ungrouped");
    assert_eq!(c.groups[0].stations[0].name, "A");
}

#[test]
fn failed_readings_give_no_groups() {
    assert!(config_from_layout(ConfigLayout::Grouped, None, None).groups.is_empty());
    assert!(config_from_layout(ConfigLayout::Legacy, None, None).groups.is_empty());
    assert!(config_from_layout(ConfigLayout::Unreadable, Some(two_groups()), Some(vec![station("A", "a")])).groups.is_empty());
    assert_eq!(config_from_layout(ConfigLayout::Grouped, Some(two_groups()), None).groups.len(), 2);
    assert!(Config::default().groups.is_empty());
}

#[test]
fn manager_flattens_groups_in_order() {
    let m = ConfigManager::load(PathBuf::from("/tmp/stations.toml"), two_groups());
    assert_eq!(m.path(), &PathBuf::from("/tmp/stations.toml"));
    assert_eq!(m.group_count(), 2);
    let flat: Vec<&str> = m.flat_stations().iter().map(|s| s.name.as_str()).collect();
    assert_eq!(flat, vec!["A", "B", "C"]);
    assert_eq!(m.groups()[0].name, "Jazz");
}

#[test]
fn add_station_goes_to_favourites() {
    let mut m = ConfigManager::load(PathBuf::from("p"), two_groups());
    m.add_station(station("D", "http://d"));
    assert_eq!(m.group_count(), 2);
    assert_eq!(m.groups()[1].stations.len(), 2);
    let flat: Vec<&str> = m.flat_stations().iter().map(|s| s.name.as_str()).collect();
    assert_eq!(flat, vec!["A", "B", "C", "D"]);
}

#[test]
fn add_to_missing_group_creates_it_last() {
    let mut m = ConfigManager::load(PathBuf::from("p"), two_groups());
    m.add_to_group(station("E", "http://e"), "Uncategorised");
    assert_eq!(m.group_count(), 3);
    assert_eq!(m.groups()[2].name, "Uncategorised");
    assert_eq!(m.flat_stations().len(), 4);
    assert_eq!(m.flat_stations()[3].name, "E");
    m.add_to_group(station("F", "http://f"), "Jazz");
    let flat: Vec<&str> = m.flat_stations().iter().map(|s| s.name.as_str()).collect();
    assert_eq!(flat, vec!["A", "B", "F", "C", "E"]);
}

#[test]
fn station_clone_keeps_fields() {
    let s = Station { name: "N".to_string(), url: "U".to_string(), artwork: Some("W".to_string()), auto_add: Some(true) };
    let c = s.clone();
    assert_eq!(c.name, "N");
    assert_eq!(c.artwork.as_deref(), Some("W"));
    assert_eq!(c.auto_add, Some(true));
}

#[test]
fn station_numbers_follow_group_order() {
    let m = ConfigManager::load(PathBuf::from("p"), two_groups());
    assert_eq!(m.station_number(0, 0), 0);
    assert_eq!(m.station_number(0, 1), 1);
    assert_eq!(m.station_number(1, 0), 2);
    assert_eq!(m.flat_stations()[m.station_number(1, 0)].name, "C");
}
