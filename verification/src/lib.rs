//! A self-hosted podcast catalogue.
//!
//! Each subdirectory of a content root that holds audio files is a show, each
//! audio file in it an episode.  The catalogue is built from a directory
//! listing handed in by the caller, kept in memory, and rendered on demand:
//! a show as a syndication feed with absolute download links, the catalogue
//! as an HTML index page whose rendering is computed at most once.

pub mod config;
pub mod dir;
pub mod site;
pub mod text;
