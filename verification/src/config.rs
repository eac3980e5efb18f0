//! Stations and station groups, the two layouts of the stations file, and the
//! in-memory station list with its flat, numbered view.
use std::path::PathBuf;
use vstd::prelude::*;
use crate::pls::opt_str;
use crate::text::str_eq;

verus! {

/// One radio station.
#[derive(Debug)]
pub struct Station {
    pub name: String,
    pub url: String,
    pub artwork: Option<String>,
    pub auto_add: Option<bool>,
}

/// A named group of stations.
#[derive(Debug)]
pub struct StationGroup {
    pub name: String,
    pub stations: Vec<Station>,
}

/// The contents of the stations file.
#[derive(Debug)]
pub struct Config {
    pub groups: Vec<StationGroup>,
}

pub struct StationView {
    pub name: Seq<char>,
    pub url: Seq<char>,
    pub artwork: Option<Seq<char>>,
    pub auto_add: Option<bool>,
}

pub struct GroupView {
    pub name: Seq<char>,
    pub stations: Seq<StationView>,
}

impl View for Station {
    type V = StationView;

    open spec fn view(&self) -> StationView {
        StationView {
            name: self.name@,
            url: self.url@,
            artwork: opt_str(self.artwork),
            auto_add: self.auto_add,
        }
    }
}

pub open spec fn station_views(s: Seq<Station>) -> Seq<StationView> {
    s.map_values(|x: Station| x@)
}

impl View for StationGroup {
    type V = GroupView;

    open spec fn view(&self) -> GroupView {
        GroupView { name: self.name@, stations: station_views(self.stations@) }
    }
}

pub open spec fn group_views(s: Seq<StationGroup>) -> Seq<GroupView> {
    s.map_values(|g: StationGroup| g@)
}

impl View for Config {
    type V = Seq<GroupView>;

    open spec fn view(&self) -> Seq<GroupView> {
        group_views(self.groups@)
    }
}

impl Clone for Station {
    fn clone(&self) -> (r: Self)
        ensures
            r@ == self@,
    {
        let artwork = match &self.artwork {
            Some(a) => Some(a.clone()),
            None => None,
        };
        Station { name: self.name.clone(), url: self.url.clone(), artwork, auto_add: self.auto_add }
    }
}

impl Default for Config {
    fn default() -> (r: Self)
        ensures
            r@ == Seq::<GroupView>::empty(),
    {
        let r = Config { groups: Vec::new() };
        assert(r@ =~= Seq::<GroupView>::empty());
        r
    }
}

/// The stations of all groups, group after group, in order.
pub open spec fn flatten(gs: Seq<GroupView>) -> Seq<StationView>
    decreases gs.len(),
{
    if gs.len() == 0 {
        Seq::empty()
    } else {
        flatten(gs.drop_last()) + gs.last().stations
    }
}

// ---------------------------------------------------------------------------
// The layouts of the stations file
// ---------------------------------------------------------------------------

/// The layouts that the stations file may have.
#[derive(Debug, Clone, Copy, PartialEq, Eq)]
pub enum ConfigLayout {
    /// A top-level `groups` array of station groups.
    Grouped,
    /// The older layout: a top-level `stations` array, without groups.
    Legacy,
    /// Not TOML, or neither key present.
    Unreadable,
}

/// The top-level keys of the TOML document `content`, `None` when it is not
/// TOML.
pub uninterp spec fn toml_top_level_keys(content: Seq<char>) -> Option<Set<Seq<char>>>;

/// Calls `content.parse::<toml::Value>()` and lists the keys of the table
/// that it yields (none for a value that is not a table); `None` when the
/// text does not parse. The set of those keys is `toml_top_level_keys`.
#[verifier::external_body]
fn toml_keys(content: &str) -> (r: Option<Vec<String>>)
    ensures
        match r {
            Some(v) => toml_top_level_keys(content@) == Some(
                v@.map_values(|s: String| s@).to_set(),
            ),
            None => toml_top_level_keys(content@) is None,
        },
{
    match content.parse::<toml::Value>() {
        Ok(toml::Value::Table(t)) => Some(t.keys().cloned().collect()),
        Ok(_) => Some(Vec::new()),
        Err(_) => None,
    }
}

/// The layout that the keys of a stations file show; `groups` wins over
/// `stations`.
pub open spec fn layout_of(keys: Option<Set<Seq<char>>>) -> ConfigLayout {
    match keys {
        Some(k) => if k.contains("groups"@) {
            ConfigLayout::Grouped
        } else if k.contains("stations"@) {
            ConfigLayout::Legacy
        } else {
            ConfigLayout::Unreadable
        },
        None => ConfigLayout::Unreadable,
    }
}

/// The layout of the stations file `content`.
pub fn detect_layout(content: &str) -> (r: ConfigLayout)
    ensures
        r == layout_of(toml_top_level_keys(content@)),
{
    match toml_keys(content) {
        None => ConfigLayout::Unreadable,
        Some(keys) => {
            let ghost ks = keys@.map_values(|s: String| s@);
            let mut has_groups = false;
            let mut has_stations = false;
            let mut i: usize = 0;
            while i < keys.len()
                invariant
                    i <= keys@.len() == ks.len(),
                    ks == keys@.map_values(|s: String| s@),
                    has_groups == exists|j: int| 0 <= j < i && #[trigger] ks[j] == "groups"@,
                    has_stations == exists|j: int| 0 <= j < i && #[trigger] ks[j] == "stations"@,
                decreases keys.len() - i,
            {
                proof {
                    assert(ks[i as int] == keys@[i as int]@);
                }
                if str_eq(keys[i].as_str(), "groups") {
                    has_groups = true;
                }
                if str_eq(keys[i].as_str(), "stations") {
                    has_stations = true;
                }
                i += 1;
            }
            proof {
                assert(ks.to_set().contains("groups"@) == ks.contains("groups"@));
                assert(ks.to_set().contains("stations"@) == ks.contains("stations"@));
            }
            if has_groups {
                ConfigLayout::Grouped
            } else if has_stations {
                ConfigLayout::Legacy
            } else {
                ConfigLayout::Unreadable
            }
        },
    }
}

/// The stations read from a file of the given layout, where `grouped` is
/// the file read as the grouped layout and `legacy` the stations of the file
/// read as the older layout (each `None` when that reading failed or was not
/// made): the groups for the grouped layout, one group `Ungrouped` for the
/// older one, no groups otherwise.
pub open spec fn loaded_groups(
    layout: ConfigLayout,
    grouped: Option<Seq<GroupView>>,
    legacy: Option<Seq<StationView>>,
) -> Seq<GroupView> {
    match layout {
        ConfigLayout::Grouped => match grouped {
            Some(g) => g,
            None => Seq::empty(),
        },
        ConfigLayout::Legacy => match legacy {
            Some(s) => seq![GroupView { name: "Ungrouped"@, stations: s }],
            None => Seq::empty(),
        },
        ConfigLayout::Unreadable => Seq::empty(),
    }
}

pub open spec fn opt_config(c: Option<Config>) -> Option<Seq<GroupView>> {
    match c {
        Some(x) => Some(x@),
        None => None,
    }
}

pub open spec fn opt_stations(s: Option<Vec<Station>>) -> Option<Seq<StationView>> {
    match s {
        Some(x) => Some(station_views(x@)),
        None => None,
    }
}

/// The configuration of a stations file (see `loaded_groups`).
pub fn config_from_layout(
    layout: ConfigLayout,
    grouped: Option<Config>,
    legacy: Option<Vec<Station>>,
) -> (r: Config)
    ensures
        r@ == loaded_groups(layout, opt_config(grouped), opt_stations(legacy)),
{
    match layout {
        ConfigLayout::Grouped => match grouped {
            Some(c) => c,
            None => Config::default(),
        },
        ConfigLayout::Legacy => match legacy {
            Some(stations) => {
                let mut groups: Vec<StationGroup> = Vec::new();
                groups.push(StationGroup { name: "Ungrouped".to_owned(), stations });
                let r = Config { groups };
                assert(r@ =~= loaded_groups(layout, opt_config(grouped), opt_stations(legacy)));
                r
            },
            None => Config::default(),
        },
        ConfigLayout::Unreadable => Config::default(),
    }
}

// ---------------------------------------------------------------------------
// The station list in memory
// ---------------------------------------------------------------------------

/// Position of the first group named `name`, or -1.
pub open spec fn group_position(gs: Seq<GroupView>, name: Seq<char>) -> int
    decreases gs.len(),
{
    if gs.len() == 0 {
        -1
    } else {
        let p = group_position(gs.drop_last(), name);
        if p >= 0 {
            p
        } else if gs.last().name == name {
            gs.len() - 1
        } else {
            -1
        }
    }
}

/// The groups after adding `st` to the first group named `name`, or to a new
/// group of that name at the end when there is none.
pub open spec fn with_station(gs: Seq<GroupView>, st: StationView, name: Seq<char>) -> Seq<
    GroupView,
> {
    let p = group_position(gs, name);
    if p >= 0 {
        gs.update(p, GroupView { name: gs[p].name, stations: gs[p].stations.push(st) })
    } else {
        gs.push(GroupView { name: name, stations: seq![st] })
    }
}

/// What a `ConfigManager` holds: the stations file path and the groups.
pub struct ConfigState {
    pub path: PathBuf,
    pub groups: Seq<GroupView>,
}

/// The station groups, the path of their file, and every station numbered in
/// group order.
pub struct ConfigManager {
    path: PathBuf,
    groups: Vec<StationGroup>,
    flat: Vec<Station>,
}

impl View for ConfigManager {
    type V = ConfigState;

    closed spec fn view(&self) -> ConfigState {
        ConfigState { path: self.path, groups: group_views(self.groups@) }
    }
}

fn flatten_groups(groups: &Vec<StationGroup>) -> (r: Vec<Station>)
    ensures
        station_views(r@) == flatten(group_views(groups@)),
{
    let ghost gv = group_views(groups@);
    let mut r: Vec<Station> = Vec::new();
    let mut i: usize = 0;
    assert(station_views(r@) =~= flatten(gv.take(0)));
    while i < groups.len()
        invariant
            i <= groups@.len() == gv.len(),
            gv == group_views(groups@),
            station_views(r@) == flatten(gv.take(i as int)),
        decreases groups.len() - i,
    {
        let ghost before = station_views(r@);
        let g = &groups[i];
        let mut j: usize = 0;
        while j < g.stations.len()
            invariant
                j <= g.stations@.len(),
                station_views(r@) == before + station_views(g.stations@).take(j as int),
            decreases g.stations.len() - j,
        {
            let ghost rv = station_views(r@);
            r.push(g.stations[j].clone());
            proof {
                assert(station_views(r@) =~= rv.push(g.stations@[j as int]@));
                assert(station_views(g.stations@).take(j + 1) =~= station_views(g.stations@).take(
                    j as int,
                ).push(g.stations@[j as int]@));
            }
            j += 1;
        }
        proof {
            assert(gv.take(i + 1).drop_last() =~= gv.take(i as int));
            assert(gv.take(i + 1).last() == g@);
            assert(station_views(g.stations@).take(g.stations@.len() as int) =~= station_views(
                g.stations@,
            ));
        }
        i += 1;
    }
    assert(gv.take(groups.len() as int) =~= gv);
    r
}

impl ConfigManager {
    /// The numbered list agrees with the groups.
    pub closed spec fn wf(&self) -> bool {
        station_views(self.flat@) == flatten(group_views(self.groups@))
    }

    /// The manager for the stations file at `path` whose contents are
    /// `config`.
    pub fn load(path: PathBuf, config: Config) -> (r: Self)
        ensures
            r.wf(),
            r@.path == path,
            r@.groups == config@,
    {
        let flat = flatten_groups(&config.groups);
        ConfigManager { path, groups: config.groups, flat }
    }

    /// The path of the stations file.
    pub fn path(&self) -> (r: &PathBuf)
        ensures
            *r == self@.path,
    {
        &self.path
    }

    /// The station groups.
    pub fn groups(&self) -> (r: &[StationGroup])
        ensures
            group_views(r@) == self@.groups,
    {
        &self.groups
    }

    /// The number of groups.
    pub fn group_count(&self) -> (r: usize)
        ensures
            r == self@.groups.len(),
    {
        self.groups.len()
    }

    /// Every station, group after group: the position of a station here is
    /// its number in the station list.
    pub fn flat_stations(&self) -> (r: &[Station])
        requires
            self.wf(),
        ensures
            station_views(r@) == flatten(self@.groups),
    {
        &self.flat
    }

    /// The number in the station list of station `index` of group `group`:
    /// the stations of all earlier groups come first.
    pub fn station_number(&self, group: usize, index: usize) -> (r: usize)
        requires
            self.wf(),
            group < self@.groups.len(),
            index < self@.groups[group as int].stations.len(),
        ensures
            r == flatten(self@.groups.take(group as int)).len() + index,
            r < flatten(self@.groups).len(),
            flatten(self@.groups)[r as int] == self@.groups[group as int].stations[index as int],
    {
        let ghost gv = group_views(self.groups@);
        proof {
            lemma_flatten_prefix(gv, group as int + 1);
            assert(gv.take(group + 1).drop_last() =~= gv.take(group as int));
            assert(gv.take(group + 1).last() == gv[group as int]);
            assert(flatten(gv.take(group + 1))[flatten(gv.take(group as int)).len() + index] == gv[group as int].stations[index as int]);
        }
        let total = self.flat.len();
        assert(total == flatten(gv).len());
        let mut sum: usize = 0;
        let mut i: usize = 0;
        assert(flatten(gv.take(0)) =~= Seq::<StationView>::empty());
        while i < group
            invariant
                total == flatten(gv).len(),
                i <= group < gv.len(),
                gv == group_views(self.groups@),
                self.wf(),
                sum == flatten(gv.take(i as int)).len(),
                flatten(gv.take(group as int)).len() + index < flatten(gv).len(),
            decreases group - i,
        {
            proof {
                assert(gv.take(i + 1).drop_last() =~= gv.take(i as int));
                assert(gv.take(i + 1).last() == gv[i as int]);
                assert(gv[i as int] == self.groups@[i as int]@);
                lemma_flatten_prefix(gv.take(group as int), i as int + 1);
                assert(gv.take(group as int).take(i + 1) =~= gv.take(i + 1));
                assert(self.flat@.len() == flatten(gv).len());
            }
            sum = sum + self.groups[i].stations.len();
            i += 1;
        }
        sum + index
    }

    /// Adds `station` to the first group named `group_name`, or to a new
    /// group of that name at the end; the numbered list follows.
    pub fn add_to_group(&mut self, station: Station, group_name: &str)
        ensures
            final(self).wf(),
            final(self)@.path == old(self)@.path,
            final(self)@.groups == with_station(old(self)@.groups, station@, group_name@),
    {
        let ghost gv = group_views(self.groups@);
        let ghost sv = station@;
        let mut pos: Option<usize> = None;
        let mut i: usize = 0;
        while pos.is_none() && i < self.groups.len()
            invariant
                i <= self.groups@.len() == gv.len(),
                gv == group_views(self.groups@),
                match pos {
                    None => group_position(gv.take(i as int), group_name@) == -1,
                    Some(p) => p == group_position(gv, group_name@) && p < gv.len(),
                },
            decreases self.groups.len() - i,
        {
            proof {
                assert(gv.take(i + 1).drop_last() =~= gv.take(i as int));
                assert(gv.take(i + 1).last() == gv[i as int]);
                assert(gv[i as int] == self.groups@[i as int]@);
            }
            if str_eq(self.groups[i].name.as_str(), group_name) {
                pos = Some(i);
                proof {
                    lemma_group_position_extend(gv, group_name@, i + 1);
                }
            }
            i += 1;
        }
        proof {
            if pos is None {
                assert(gv.take(gv.len() as int) =~= gv);
            }
        }
        let ghost old_groups = self.groups@;
        match pos {
            Some(p) => {
                let mut g = self.groups.remove(p);
                g.stations.push(station);
                self.groups.insert(p, g);
                proof {
                    assert(group_views(self.groups@) =~= with_station(gv, sv, group_name@)) by {
                        assert forall|k: int| 0 <= k < gv.len() implies #[trigger] group_views(
                            self.groups@,
                        )[k] == with_station(gv, sv, group_name@)[k] by {
                            if k != p {
                                assert(self.groups@[k] == old_groups[k]);
                            } else {
                                assert(station_views(g.stations@) =~= gv[k].stations.push(sv));
                            }
                        }
                    }
                }
            },
            None => {
                let mut stations: Vec<Station> = Vec::new();
                stations.push(station);
                self.groups.push(StationGroup { name: group_name.to_owned(), stations });
                proof {
                    assert(group_position(gv, group_name@) == -1);
                    assert(group_views(self.groups@) =~= with_station(gv, sv, group_name@)) by {
                        assert(station_views(stations@) =~= seq![sv]);
                    }
                }
            },
        }
        self.flat = flatten_groups(&self.groups);
    }

    /// Adds `station` to the group `Favourites` (see `add_to_group`).
    pub fn add_station(&mut self, station: Station)
        ensures
            final(self).wf(),
            final(self)@.path == old(self)@.path,
            final(self)@.groups == with_station(old(self)@.groups, station@, "Favourites"@),
    {
        self.add_to_group(station, "Favourites");
    }
}

/// The stations of the first `m` groups come first in the list, in order.
pub proof fn lemma_flatten_prefix(gv: Seq<GroupView>, m: int)
    requires
        0 <= m <= gv.len(),
    ensures
        flatten(gv.take(m)).len() <= flatten(gv).len(),
        forall|k: int| 0 <= k < flatten(gv.take(m)).len() ==> #[trigger] flatten(gv)[k] == flatten(gv.take(m))[k],
    decreases gv.len() - m,
{
    if m < gv.len() {
        assert(gv.drop_last().take(m) =~= gv.take(m));
        lemma_flatten_prefix(gv.drop_last(), m);
    } else {
        assert(gv.take(m) =~= gv);
    }
}

proof fn lemma_group_position_bounds(gs: Seq<GroupView>, name: Seq<char>)
    ensures
        -1 <= group_position(gs, name) < gs.len(),
        group_position(gs, name) >= 0 ==> gs[group_position(gs, name)].name == name,
        group_position(gs, name) == -1 ==> forall|k: int| 0 <= k < gs.len() ==> (#[trigger] gs[k]).name != name,
    decreases gs.len(),
{
    if gs.len() > 0 {
        lemma_group_position_bounds(gs.drop_last(), name);
        if group_position(gs, name) == -1 {
            assert forall|k: int| 0 <= k < gs.len() implies (#[trigger] gs[k]).name != name by {
                if k < gs.len() - 1 {
                    assert(gs[k] == gs.drop_last()[k]);
                }
            }
        }
    }
}

proof fn lemma_flatten_grow(gs: Seq<GroupView>, p: int, st: StationView)
    requires
        0 <= p < gs.len(),
    ensures
        flatten(gs.update(p, GroupView { name: gs[p].name, stations: gs[p].stations.push(st) })).len()
            == flatten(gs).len() + 1,
        flatten(gs.update(p, GroupView { name: gs[p].name, stations: gs[p].stations.push(st) })).contains(st),
    decreases gs.len(),
{
    let g2 = GroupView { name: gs[p].name, stations: gs[p].stations.push(st) };
    let u = gs.update(p, g2);
    if p == gs.len() - 1 {
        assert(u.drop_last() =~= gs.drop_last());
        let f = flatten(u.drop_last()) + g2.stations;
        assert(f[f.len() - 1] == st);
    } else {
        assert(u.drop_last() =~= gs.drop_last().update(p, g2));
        lemma_flatten_grow(gs.drop_last(), p, st);
        let a = flatten(u.drop_last());
        let i = choose|i: int| 0 <= i < a.len() && a[i] == st;
        assert((a + u.last().stations)[i] == st);
    }
}

/// Adding a station adds exactly one station to the numbered list, and it is
/// there afterwards; a new group is made only when no group has the name,
/// and then the station is numbered last.
pub proof fn lemma_add_station_grows_list(gs: Seq<GroupView>, st: StationView, name: Seq<char>)
    ensures
        flatten(with_station(gs, st, name)).len() == flatten(gs).len() + 1,
        flatten(with_station(gs, st, name)).contains(st),
        with_station(gs, st, name).len() == gs.len() + (if group_position(gs, name) >= 0 {
            0int
        } else {
            1int
        }),
        group_position(gs, name) < 0 ==> flatten(with_station(gs, st, name)) == flatten(gs).push(st),
{
    lemma_group_position_bounds(gs, name);
    let p = group_position(gs, name);
    if p >= 0 {
        lemma_flatten_grow(gs, p, st);
    } else {
        let w = with_station(gs, st, name);
        assert(w.drop_last() =~= gs);
        assert(flatten(w) =~= flatten(gs).push(st));
        assert(flatten(w)[flatten(gs).len() as int] == st);
    }
}

proof fn lemma_group_position_extend(gs: Seq<GroupView>, name: Seq<char>, m: int)
    requires
        0 < m <= gs.len(),
        group_position(gs.take(m - 1), name) == -1,
        gs[m - 1].name == name,
    ensures
        group_position(gs, name) == m - 1,
    decreases gs.len() - m,
{
    if m < gs.len() {
        assert(gs.drop_last().take(m - 1) =~= gs.take(m - 1));
        assert(gs.drop_last()[m - 1] == gs[m - 1]);
        lemma_group_position_extend(gs.drop_last(), name, m);
    } else {
        assert(gs.drop_last() =~= gs.take(m - 1));
    }
}

} // verus!
