//! The station logic of a panel radio applet: PLS playlists, station
//! catalogues, the grouped station list, artwork cache names and the
//! playback and marquee state, each with its contract proved by Verus.
pub mod artwork;
pub mod audio;
pub mod config;
pub mod pls;
pub mod sorting;
pub mod state;
pub mod text;
pub mod url_handler;
