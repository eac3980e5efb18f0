# cosmic-radio

The logic of a COSMIC panel applet that streams internet radio, written in
Verus and verified.

- `src/` is the library:
  - `text` — trimming, splitting, prefix tests and number parsing over
    characters, with their meaning stated as spec functions;
  - `pls` — reading PLS playlists and choosing the entry to play;
  - `url_handler` — what an address serves: a playlist, the SomaFM or Radio
    Browser catalogue, an HTML page or a stream, and the station names taken
    from addresses;
  - `sorting` — the stable sort by descending bitrate;
  - `config` — stations, groups, the layouts of `stations.toml` and the
    numbered station list;
  - `artwork` — the artwork cache and the cache file names;
  - `audio` — the choices around playback (PLS addresses, tag text);
  - `state` — the applet state, what each action does to it, and the marquee.
- `app/` is the applet around it: the COSMIC window and widgets, GStreamer
  playback, MPRIS, HTTP fetches, JSON and TOML (de)serialisation and file I/O.
- `tests/` exercise the library on concrete values.
