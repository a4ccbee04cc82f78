//! A template store's rules: the natural order of names, the folders of a
//! template tree, directory snapshots with incremental reload, and content
//! fingerprints.

pub mod natural;
pub mod listing;
pub mod clock;
pub mod folder;
pub mod fingerprint;
pub mod window;
