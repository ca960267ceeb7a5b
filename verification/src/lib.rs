//! Core of a bi-directional file-tree synchronizer.
//!
//! The library models both sides of a sync as sorted lists of [`scan::DirEntryWithMeta`]
//! records, turns two lists into per-path [`scan::change::Change`]s, pairs local and
//! remote changes into [`actions::Action`]s, computes rsync-style deltas over file
//! contents ([`rustsync`]), and plans the filesystem mutations that apply a set of
//! resolved actions ([`sync`]). All of it is verified; the surrounding process —
//! walking directories, talking to the peer, the terminal — lives outside and talks
//! to this crate in plain values.

pub mod paths;
pub mod scan;
pub mod actions;
pub mod rustsync;
pub mod sync;
pub mod profile;
pub mod utils;
