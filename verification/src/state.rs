//! The applet's playback and display state and the decisions that each user
//! action or timer tick makes on it. The audio backend, the station file and
//! the window are driven outside from the requests returned here.
use vstd::prelude::*;
use crate::config::{
    flatten, group_views, lemma_flatten_prefix, with_station, ConfigManager, Station, StationView,
};
use crate::pls::opt_str;
use crate::text::{
    chars_of, ends_with, has_prefix, slice_chars, starts_with, string_of, trim, trim_chars,
};

verus! {

/// Characters of the now-playing text shown at once.
pub const MARQUEE_MAX_CHARS: usize = 33;

/// Ticks per character while the text scrolls.
pub const MARQUEE_SCROLL_INTERVAL: u32 = 3;

/// Ticks the text rests before it scrolls.
pub const MARQUEE_START_PAUSE_TICKS: u32 = 60;

/// Ticks the text rests after it has scrolled.
pub const MARQUEE_END_PAUSE_TICKS: u32 = 60;

/// The longest now-playing text (in characters) whose marquee cycle,
/// `60 + (count - 32) * 3 + 60` ticks, still fits in `u32`.
pub const MARQUEE_TEXT_LIMIT: usize = 1_431_655_757;

/// What the applet shows and plays.
pub struct PlayerState {
    /// The numbered station that plays, if one was chosen from the list.
    pub current_station: Option<usize>,
    pub is_playing: bool,
    /// The now-playing text: stream tags, else the station name.
    pub now_playing: String,
    /// How many characters the marquee has scrolled.
    pub scroll_offset: u32,
    /// Ticks into the current marquee cycle.
    pub scroll_tick_counter: u32,
    pub show_url_input: bool,
    pub url_input: String,
    /// The stream played from a typed address, and its name.
    pub temp_stream_url: Option<String>,
    pub temp_stream_name: Option<String>,
    /// Whether each group is folded in the list.
    pub group_collapsed: Vec<bool>,
}

/// A stream to start: its address, the name to show until the stream says
/// otherwise, and the artwork address to load (if any).
#[derive(Debug)]
pub struct PlayRequest {
    pub url: String,
    pub name: String,
    pub artwork: Option<String>,
}

/// What the audio backend is to do after a play/stop toggle.
#[derive(Debug)]
pub enum PlaybackAction {
    Play(PlayRequest),
    Stop,
    Nothing,
}

/// The marquee position after one tick for a text of `count` characters:
/// short texts do not move; long ones rest, scroll one character per
/// `MARQUEE_SCROLL_INTERVAL` ticks up to the end, rest again, and start over.
pub open spec fn tick_step(counter: u32, offset: u32, count: nat) -> (u32, u32) {
    if count <= MARQUEE_MAX_CHARS {
        (counter, offset)
    } else {
        let max_offset = count - MARQUEE_MAX_CHARS;
        let phase = (max_offset + 1) * MARQUEE_SCROLL_INTERVAL;
        let total = MARQUEE_START_PAUSE_TICKS + phase + MARQUEE_END_PAUSE_TICKS;
        if counter < MARQUEE_START_PAUSE_TICKS {
            ((counter + 1) as u32, offset)
        } else if counter < MARQUEE_START_PAUSE_TICKS + phase {
            let scrolled = ((counter - MARQUEE_START_PAUSE_TICKS) / MARQUEE_SCROLL_INTERVAL as int) as u32;
            ((counter + 1) as u32, if scrolled > offset {
                scrolled
            } else {
                offset
            })
        } else if counter < total {
            ((counter + 1) as u32, offset)
        } else {
            (0, 0)
        }
    }
}

/// The ticks of one whole marquee cycle for a long text of `count`
/// characters: rest, scroll, rest.
pub open spec fn cycle_len(count: nat) -> int {
    MARQUEE_START_PAUSE_TICKS + (count - MARQUEE_MAX_CHARS + 1) * MARQUEE_SCROLL_INTERVAL
        + MARQUEE_END_PAUSE_TICKS
}

/// The marquee position after `k` ticks from the start of a cycle.
pub open spec fn ticks_from_start(k: nat, count: nat) -> (u32, u32)
    decreases k,
{
    if k == 0 {
        (0, 0)
    } else {
        let p = ticks_from_start((k - 1) as nat, count);
        tick_step(p.0, p.1, count)
    }
}

/// How far the text has scrolled `k` ticks into a cycle: not at all during
/// the first rest, one character per `MARQUEE_SCROLL_INTERVAL` ticks after
/// it, and to the end (where the last characters show) for the final rest.
pub open spec fn scrolled_after(k: int, count: nat) -> int {
    let max = count - MARQUEE_MAX_CHARS;
    if k <= MARQUEE_START_PAUSE_TICKS {
        0
    } else if k <= MARQUEE_START_PAUSE_TICKS + (max + 1) * MARQUEE_SCROLL_INTERVAL {
        (k - MARQUEE_START_PAUSE_TICKS - 1) / MARQUEE_SCROLL_INTERVAL as int
    } else {
        max
    }
}

/// For a text too long to show at once, the marquee rests, scrolls one
/// character every `MARQUEE_SCROLL_INTERVAL` ticks until its last characters
/// show, rests again, and after `cycle_len` ticks starts over from the
/// beginning; it never scrolls past the end.
pub proof fn lemma_marquee_cycle(k: nat, count: nat)
    requires
        MARQUEE_MAX_CHARS < count <= MARQUEE_TEXT_LIMIT,
        k <= cycle_len(count) + 1,
    ensures
        k <= cycle_len(count) ==> ticks_from_start(k, count) == (k as u32, scrolled_after(
            k as int,
            count,
        ) as u32),
        k == cycle_len(count) + 1 ==> ticks_from_start(k, count) == (0u32, 0u32),
        0 <= scrolled_after(k as int, count) <= count - MARQUEE_MAX_CHARS,
    decreases k,
{
    let max = count - MARQUEE_MAX_CHARS;
    let phase = (max + 1) * 3;
    assert(phase == 3 * max + 3);
    assert((phase - 1) / 3 == max);
    if k > 0 {
        lemma_marquee_cycle((k - 1) as nat, count);
        let p = ticks_from_start((k - 1) as nat, count);
        assert(p == ((k - 1) as u32, scrolled_after(k - 1, count) as u32));
        if k - 1 >= 60 && k - 1 < 60 + phase {
            let e = k - 1 - 60;
            assert(e / 3 <= max) by {
                assert(e < 3 * max + 3);
            }
            if k - 1 > 60 {
                assert((k - 62) / 3 <= (k - 61) / 3);
            }
        }
    }
}

/// The part of `text` that the marquee shows at `offset`.
pub open spec fn marquee_window(text: Seq<char>, offset: u32) -> Seq<char> {
    if text.len() > MARQUEE_MAX_CHARS {
        let max = text.len() - MARQUEE_MAX_CHARS;
        let off = if offset <= max {
            offset as int
        } else {
            max
        };
        text.subrange(off, off + MARQUEE_MAX_CHARS)
    } else {
        text
    }
}

/// The shown part of `text` when the marquee is at `offset`: at most
/// `MARQUEE_MAX_CHARS` characters, starting no later than where the last
/// ones fit.
pub fn marquee_text(text: &str, offset: u32) -> (r: String)
    ensures
        r@ == marquee_window(text@, offset),
{
    let c = chars_of(text);
    if c.len() > MARQUEE_MAX_CHARS {
        let max = c.len() - MARQUEE_MAX_CHARS;
        let off: usize = if (offset as usize) <= max {
            offset as usize
        } else {
            max
        };
        let w = slice_chars(&c, off, off + MARQUEE_MAX_CHARS);
        string_of(&w)
    } else {
        string_of(&c)
    }
}

/// Whether some station is named `name` or plays `url`.
pub open spec fn station_known(stations: Seq<StationView>, name: Seq<char>, url: Seq<char>) -> bool {
    exists|i: int| 0 <= i < stations.len() && #[trigger] same_station(stations[i], name, url)
}

/// A station with this name or this address.
pub open spec fn same_station(s: StationView, name: Seq<char>, url: Seq<char>) -> bool {
    s.name == name || s.url == url
}

/// The name of a typed stream: the name the playback reported (the PLS
/// `Title1`, or the name derived from the address), or the name derived from
/// the address when the reported one is empty.
pub open spec fn stream_name(display: Seq<char>, fallback: Seq<char>) -> Seq<char> {
    if display.len() == 0 {
        fallback
    } else {
        display
    }
}

/// The station added when a typed address starts to play.
pub open spec fn typed_station(name: Seq<char>, url: Seq<char>) -> StationView {
    StationView { name: name, url: url, artwork: None, auto_add: Some(true) }
}

/// The address to play for typed input: trimmed, with `https://` put in
/// front unless it begins with `http://` or `https://`; `None` when empty.
pub open spec fn normalized_url(input: Seq<char>) -> Option<Seq<char>> {
    let t = trim(input);
    if t.len() == 0 {
        None
    } else if starts_with(t, "http://"@) || starts_with(t, "https://"@) {
        Some(t)
    } else {
        Some("https://"@ + t)
    }
}

/// Typed input is played when it is not blank: as typed (trimmed) when it
/// already begins with `http://` or `https://`, otherwise with `https://` in
/// front. Either way the address begins with one of the two schemes and ends
/// with the trimmed input, which is never lengthened by more than `https://`.
pub proof fn lemma_normalized_url(input: Seq<char>)
    ensures
        normalized_url(input) is Some <==> trim(input).len() > 0,
        (starts_with(trim(input), "http://"@) || starts_with(trim(input), "https://"@))
            ==> normalized_url(input) == Some(trim(input)),
        trim(input).len() > 0 && !starts_with(trim(input), "http://"@) && !starts_with(
            trim(input),
            "https://"@,
        ) ==> normalized_url(input) == Some("https://"@ + trim(input)),
        normalized_url(input) matches Some(u) ==> {
            &&& starts_with(u, "http://"@) || starts_with(u, "https://"@)
            &&& ends_with(u, trim(input))
            &&& u.len() <= trim(input).len() + 8
        },
{
    reveal_strlit("http://");
    reveal_strlit("https://");
    let t = trim(input);
    if t.len() > 0 && !starts_with(t, "http://"@) && !starts_with(t, "https://"@) {
        let u = "https://"@ + t;
        assert(u.take(8) =~= "https://"@);
        assert(u.skip(u.len() - t.len()) =~= t);
    } else if t.len() > 0 {
        assert(t.skip(0) =~= t);
    } else {
        assert(starts_with(t, "http://"@) == false);
    }
}

fn known(config: &ConfigManager, name: &String, url: &String) -> (r: bool)
    ensures
        r == station_known(flatten(config@.groups), name@, url@),
{
    let groups = config.groups();
    let ghost gv = config@.groups;
    let mut i: usize = 0;
    assert(flatten(gv.take(0)) =~= Seq::<StationView>::empty());
    while i < groups.len()
        invariant
            i <= groups@.len() == gv.len(),
            group_views(groups@) == gv,
            gv == config@.groups,
            !station_known(flatten(gv.take(i as int)), name@, url@),
        decreases groups.len() - i,
    {
        let g = &groups[i];
        let ghost before = flatten(gv.take(i as int));
        proof {
            assert(gv.take(i + 1).drop_last() =~= gv.take(i as int));
            assert(gv.take(i + 1).last() == gv[i as int]);
            assert(gv[i as int] == g@);
        }
        proof {
            assert(flatten(gv.take(i + 1)) == before + g@.stations);
        }
        let mut j: usize = 0;
        while j < g.stations.len()
            invariant
                i < gv.len(),
                gv == config@.groups,
                before == flatten(gv.take(i as int)),
                flatten(gv.take(i + 1)) == before + g@.stations,
                j <= g.stations@.len(),
                forall|k: int| 0 <= k < j ==> !((#[trigger] g.stations@[k])@.name == name@ || g.stations@[k]@.url == url@),
            decreases g.stations.len() - j,
        {
            if g.stations[j].name == *name || g.stations[j].url == *url {
                proof {
                    let all = flatten(gv.take(i + 1));
                    assert(all[before.len() + j] == g.stations@[j as int]@);
                    lemma_flatten_prefix(gv, i as int + 1);
                    let whole = flatten(gv);
                    assert(whole[before.len() + j] == all[before.len() + j]);
                    let k = before.len() + j;
                    assert(same_station(whole[k], name@, url@));
                }
                return true;
            }
            j += 1;
        }
        proof {
            let all = flatten(gv.take(i + 1));
            assert(all == before + g@.stations);
            assert forall|k: int| 0 <= k < all.len() implies !#[trigger] same_station(all[k], name@, url@) by {
                if k >= before.len() {
                    assert(all[k] == g.stations@[k - before.len()]@);
                } else {
                    assert(all[k] == before[k]);
                }
            }
        }
        i += 1;
    }
    assert(gv.take(gv.len() as int) =~= gv);
    false
}

/// Appends `false` to `v` until it has `count` flags.
fn extend_unfolded(v: &mut Vec<bool>, count: usize)
    ensures
        final(v)@.take(old(v)@.len() as int) == old(v)@,
        forall|i: int| old(v)@.len() <= i < final(v)@.len() ==> !(#[trigger] final(v)@[i]),
        final(v)@.len() == if old(v)@.len() >= count {
            old(v)@.len()
        } else {
            count as nat
        },
{
    let ghost before = v@;
    while v.len() < count
        invariant
            v@.len() >= before.len(),
            v@.take(before.len() as int) == before,
            forall|i: int| before.len() <= i < v@.len() ==> !(#[trigger] v@[i]),
            v@.len() <= if before.len() >= count {
                before.len()
            } else {
                count as nat
            },
        decreases count - v.len(),
    {
        let ghost g = v@;
        v.push(false);
        assert(v@.take(before.len() as int) =~= g.take(before.len() as int));
    }
    assert(v@.take(before.len() as int) =~= before);
}

impl PlayerState {
    /// The state at start-up for a station list of `group_count` groups:
    /// nothing plays, and no group is folded.
    pub fn new(group_count: usize) -> (r: Self)
        ensures
            r.current_station is None,
            !r.is_playing,
            r.now_playing@.len() == 0,
            r.scroll_offset == 0,
            r.scroll_tick_counter == 0,
            !r.show_url_input,
            r.url_input@.len() == 0,
            r.temp_stream_url is None,
            r.temp_stream_name is None,
            r.group_collapsed@ == Seq::new(group_count as nat, |i: int| false),
    {
        let mut collapsed: Vec<bool> = Vec::new();
        let mut i: usize = 0;
        while i < group_count
            invariant
                i <= group_count,
                collapsed@ == Seq::new(i as nat, |k: int| false),
            decreases group_count - i,
        {
            collapsed.push(false);
            assert(collapsed@ =~= Seq::new((i + 1) as nat, |k: int| false));
            i += 1;
        }
        PlayerState {
            current_station: None,
            is_playing: false,
            now_playing: String::new(),
            scroll_offset: 0,
            scroll_tick_counter: 0,
            show_url_input: false,
            url_input: String::new(),
            temp_stream_url: None,
            temp_stream_name: None,
            group_collapsed: collapsed,
        }
    }

    /// Chooses the station numbered `index` from the list: it plays from now
    /// on, the marquee restarts, and any typed stream is forgotten. The
    /// station to start is returned, with its artwork address when it has a
    /// non-empty one; `None` when no station has that number.
    pub fn select_station(&mut self, index: usize, flat: &[Station]) -> (r: Option<PlayRequest>)
        ensures
            *final(self) == (PlayerState {
                current_station: Some(index),
                is_playing: true,
                scroll_offset: 0,
                scroll_tick_counter: 0,
                temp_stream_url: None,
                temp_stream_name: None,
                ..*old(self)
            }),
            match r {
                Some(p) => index < flat@.len() && p.url@ == flat@[index as int].url@ && p.name@
                    == flat@[index as int].name@ && opt_str(p.artwork) == (match flat@[index as int]@.artwork {
                    Some(a) => if a.len() > 0 {
                        Some(a)
                    } else {
                        None
                    },
                    None => None,
                }),
                None => index >= flat@.len(),
            },
    {
        self.current_station = Some(index);
        self.temp_stream_url = None;
        self.temp_stream_name = None;
        self.is_playing = true;
        self.scroll_offset = 0;
        self.scroll_tick_counter = 0;
        if index < flat.len() {
            let st = &flat[index];
            let artwork = match &st.artwork {
                Some(a) => if a.as_str().is_empty() {
                    None
                } else {
                    Some(a.clone())
                },
                None => None,
            };
            Some(PlayRequest { url: st.url.clone(), name: st.name.clone(), artwork })
        } else {
            None
        }
    }

    /// Shows `name` as the now-playing text (the name the backend reported
    /// for the stream that started).
    pub fn set_now_playing(&mut self, name: String)
        ensures
            *final(self) == (PlayerState { now_playing: name, ..*old(self) }),
    {
        self.now_playing = name;
    }

    /// Play/stop: playing flips. When it starts again the marquee restarts and
    /// the chosen station (if it is still in the list) or else the typed
    /// stream is played again; when it stops the backend stops.
    pub fn toggle_playback(&mut self, flat: &[Station]) -> (r: PlaybackAction)
        ensures
            old(self).is_playing ==> *final(self) == (PlayerState { is_playing: false, ..*old(self) })
                && r is Stop,
            !old(self).is_playing ==> *final(self) == (PlayerState {
                is_playing: true,
                scroll_offset: 0,
                scroll_tick_counter: 0,
                ..*old(self)
            }),
            final(self).is_playing ==> match old(self).current_station {
                Some(i) => if i < flat@.len() {
                    r matches PlaybackAction::Play(p) && p.url@ == flat@[i as int].url@ && p.name@
                        == flat@[i as int].name@ && p.artwork is None
                } else {
                    r is Nothing
                },
                None => match old(self).temp_stream_url {
                    Some(u) => r matches PlaybackAction::Play(p) && p.url@ == u@ && p.name@ == (
                    match old(self).temp_stream_name {
                        Some(n) => n@,
                        None => Seq::empty(),
                    }) && p.artwork is None,
                    None => r is Nothing,
                },
            },
    {
        self.is_playing = !self.is_playing;
        if self.is_playing {
            self.scroll_offset = 0;
            self.scroll_tick_counter = 0;
            match self.current_station {
                Some(i) => {
                    if i < flat.len() {
                        PlaybackAction::Play(
                            PlayRequest {
                                url: flat[i].url.clone(),
                                name: flat[i].name.clone(),
                                artwork: None,
                            },
                        )
                    } else {
                        PlaybackAction::Nothing
                    }
                },
                None => match &self.temp_stream_url {
                    Some(u) => {
                        let name = match &self.temp_stream_name {
                            Some(n) => n.clone(),
                            None => String::new(),
                        };
                        PlaybackAction::Play(PlayRequest { url: u.clone(), name, artwork: None })
                    },
                    None => PlaybackAction::Nothing,
                },
            }
        } else {
            PlaybackAction::Stop
        }
    }

    /// Shows or hides the address input.
    pub fn toggle_url_input(&mut self)
        ensures
            *final(self) == (PlayerState { show_url_input: !old(self).show_url_input, ..*old(self) }),
    {
        self.show_url_input = !self.show_url_input;
    }

    /// Replaces the typed address.
    pub fn set_url_input(&mut self, input: String)
        ensures
            *final(self) == (PlayerState { url_input: input, ..*old(self) }),
    {
        self.url_input = input;
    }

    /// Folds or unfolds group `index`; a number past the groups does nothing.
    pub fn toggle_group_collapse(&mut self, index: usize)
        ensures
            index < old(self).group_collapsed@.len() ==> final(self).group_collapsed@ == old(
                self,
            ).group_collapsed@.update(index as int, !old(self).group_collapsed@[index as int]),
            index >= old(self).group_collapsed@.len() ==> final(self).group_collapsed == old(
                self,
            ).group_collapsed,
            *final(self) == (PlayerState { group_collapsed: final(self).group_collapsed, ..*old(self) }),
    {
        if index < self.group_collapsed.len() {
            let v = self.group_collapsed[index];
            self.group_collapsed.set(index, !v);
        }
    }

    /// Submits the typed address (see `normalized_url`). For a non-empty one
    /// the input closes and is cleared, no list station is current, playing
    /// starts and the marquee restarts; the address to play is returned.
    /// Empty input changes nothing.
    pub fn begin_submit_url(&mut self) -> (r: Option<String>)
        ensures
            match r {
                Some(u) => normalized_url(old(self).url_input@) == Some(u@),
                None => normalized_url(old(self).url_input@) is None,
            },
            r is None ==> *final(self) == *old(self),
            r is Some ==> final(self).url_input@.len() == 0 && *final(self) == (PlayerState {
                show_url_input: false,
                url_input: final(self).url_input,
                current_station: None,
                is_playing: true,
                scroll_offset: 0,
                scroll_tick_counter: 0,
                ..*old(self)
            }),
    {
        let c = chars_of(self.url_input.as_str());
        let t = trim_chars(&c);
        if t.len() == 0 {
            return None;
        }
        let url: Vec<char> = if has_prefix(&t, "http://") || has_prefix(&t, "https://") {
            t
        } else {
            let mut u = chars_of("https://");
            let ghost base = u@;
            let mut i: usize = 0;
            while i < t.len()
                invariant
                    i <= t@.len(),
                    u@ == base + t@.take(i as int),
                decreases t.len() - i,
            {
                u.push(t[i]);
                assert(t@.take(i + 1) =~= t@.take(i as int).push(t@[i as int]));
                i += 1;
            }
            assert(t@.take(t@.len() as int) =~= t@);
            u
        };
        self.show_url_input = false;
        self.url_input = String::new();
        self.current_station = None;
        self.is_playing = true;
        self.scroll_offset = 0;
        self.scroll_tick_counter = 0;
        Some(string_of(&url))
    }

    /// Records that the typed address started as `stream_url` under
    /// `display_name` (or, when that is empty, under `fallback_name`, the name
    /// derived from the typed address): it becomes the current stream and the
    /// now-playing text, and unless a station already has that name or address
    /// it is added to the group `Uncategorised`, with a fold flag for every
    /// group. Returns whether a station was added (the stations file is then
    /// saved).
    pub fn finish_submit_url(
        &mut self,
        config: &mut ConfigManager,
        stream_url: String,
        display_name: String,
        fallback_name: String,
    ) -> (added: bool)
        requires
            old(config).wf(),
        ensures
            final(config).wf(),
            ({
                let name = stream_name(display_name@, fallback_name@);
                &&& *final(self) == (PlayerState {
                    temp_stream_url: Some(stream_url),
                    temp_stream_name: final(self).temp_stream_name,
                    now_playing: final(self).now_playing,
                    group_collapsed: final(self).group_collapsed,
                    ..*old(self)
                })
                &&& final(self).now_playing@ == name
                &&& final(self).temp_stream_name matches Some(n) && n@ == name
                &&& added == !station_known(flatten(old(config)@.groups), name, stream_url@)
                &&& added ==> final(config)@.groups == with_station(
                    old(config)@.groups,
                    typed_station(name, stream_url@),
                    "Uncategorised"@,
                )
            }),
            final(config)@.path == old(config)@.path,
            !added ==> final(config)@ == old(config)@,
            !added ==> final(self).group_collapsed == old(self).group_collapsed,
            added ==> final(self).group_collapsed@.len() >= final(config)@.groups.len(),
            added ==> final(self).group_collapsed@.take(old(self).group_collapsed@.len() as int) == old(self).group_collapsed@,
            added ==> forall|i: int| old(self).group_collapsed@.len() <= i < final(self).group_collapsed@.len() ==> !(#[trigger] final(self).group_collapsed@[i]),
            added ==> final(self).group_collapsed@.len() == if old(self).group_collapsed@.len() >= final(config)@.groups.len() {
                old(self).group_collapsed@.len()
            } else {
                final(config)@.groups.len()
            },
    {
        let chosen = if display_name.as_str().is_empty() {
            fallback_name
        } else {
            display_name
        };
        let name = chosen.clone();
        let url = stream_url.clone();
        self.temp_stream_url = Some(stream_url);
        self.temp_stream_name = Some(chosen);
        self.now_playing = name.clone();
        if known(config, &name, &url) {
            return false;
        }
        let station = Station { name, url, artwork: None, auto_add: Some(true) };
        config.add_to_group(station, "Uncategorised");
        let count = config.group_count();
        extend_unfolded(&mut self.group_collapsed, count);
        true
    }

    /// One marquee tick: new stream tags (if any) become the now-playing text
    /// and restart the marquee; then a non-empty text moves one step (see
    /// `tick_step`).
    pub fn marquee_tick(&mut self, new_title: Option<String>)
        requires
            old(self).now_playing@.len() <= MARQUEE_TEXT_LIMIT,
            new_title matches Some(t) ==> t@.len() <= MARQUEE_TEXT_LIMIT,
        ensures
            final(self).now_playing == (match new_title {
                Some(t) => t,
                None => old(self).now_playing,
            }),
            ({
                let (c0, o0) = match new_title {
                    Some(_) => (0u32, 0u32),
                    None => (old(self).scroll_tick_counter, old(self).scroll_offset),
                };
                if final(self).now_playing@.len() == 0 {
                    final(self).scroll_tick_counter == c0 && final(self).scroll_offset == o0
                } else {
                    (final(self).scroll_tick_counter, final(self).scroll_offset) == tick_step(
                        c0,
                        o0,
                        final(self).now_playing@.len(),
                    )
                }
            }),
            *final(self) == (PlayerState {
                now_playing: final(self).now_playing,
                scroll_tick_counter: final(self).scroll_tick_counter,
                scroll_offset: final(self).scroll_offset,
                ..*old(self)
            }),
    {
        match new_title {
            Some(t) => {
                self.now_playing = t;
                self.scroll_offset = 0;
                self.scroll_tick_counter = 0;
            },
            None => {},
        }
        let c = chars_of(self.now_playing.as_str());
        if c.len() == 0 {
            return;
        }
        let count = c.len();
        if count > MARQUEE_MAX_CHARS {
            let max_offset = (count - MARQUEE_MAX_CHARS) as u32;
            let phase = (max_offset + 1) * MARQUEE_SCROLL_INTERVAL;
            let total = MARQUEE_START_PAUSE_TICKS + phase + MARQUEE_END_PAUSE_TICKS;
            if self.scroll_tick_counter < MARQUEE_START_PAUSE_TICKS {
                self.scroll_tick_counter += 1;
            } else if self.scroll_tick_counter < MARQUEE_START_PAUSE_TICKS + phase {
                let elapsed = self.scroll_tick_counter - MARQUEE_START_PAUSE_TICKS;
                let new_offset = elapsed / MARQUEE_SCROLL_INTERVAL;
                if new_offset > self.scroll_offset {
                    self.scroll_offset = new_offset;
                }
                self.scroll_tick_counter += 1;
            } else if self.scroll_tick_counter < total {
                self.scroll_tick_counter += 1;
            } else {
                self.scroll_offset = 0;
                self.scroll_tick_counter = 0;
            }
        }
    }

    /// Whether the play button (rather than stop) is shown: nothing to play,
    /// or not playing.
    pub fn show_play_icon(&self) -> (r: bool)
        ensures
            r == ((self.current_station is None && self.temp_stream_url is None)
                || !self.is_playing),
    {
        (self.current_station.is_none() && self.temp_stream_url.is_none()) || !self.is_playing
    }

    /// The text for the now-playing line: the now-playing text, or when it is
    /// empty the chosen station's name (`No station selected` without one).
    pub fn display_text(&self, flat: &[Station]) -> (r: String)
        ensures
            r@ == if self.now_playing@.len() > 0 {
                self.now_playing@
            } else {
                match self.current_station {
                    Some(i) => if i < flat@.len() {
                        flat@[i as int].name@
                    } else {
                        "No station selected"@
                    },
                    None => "No station selected"@,
                }
            },
    {
        if !self.now_playing.as_str().is_empty() {
            return self.now_playing.clone();
        }
        match self.current_station {
            Some(i) => if i < flat.len() {
                flat[i].name.clone()
            } else {
                "No station selected".to_owned()
            },
            None => "No station selected".to_owned(),
        }
    }
}

} // verus!
