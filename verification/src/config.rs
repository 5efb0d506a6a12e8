//! Declarative configuration: application settings and per-font descriptors.

use vstd::prelude::*;

verus! {

/// Application-level settings: where font data lives, where generated
/// artifacts are stored, and how long cache entries are retained.
#[derive(Debug, Clone)]
pub struct AppConfig {
    pub data_dir: String,
    pub static_dir: String,
    pub cache_cleanup_days: u64,
}

impl Default for AppConfig {
    /// The reference deployment: font data under `data`, artifacts under
    /// `data/static`, and a seven-day cache retention window.
    fn default() -> (r: AppConfig)
        ensures
            r.data_dir@ == "data"@,
            r.static_dir@ == "data/static"@,
            r.cache_cleanup_days == 7,
    {
        AppConfig {
            data_dir: String::from_str("data"),
            static_dir: String::from_str("data/static"),
            cache_cleanup_days: 7,
        }
    }
}

/// One constituent file of a font family.
#[derive(Debug, Clone)]
pub struct FontFile {
    pub name: String,
    pub path: String,
    pub font_family: String,
}

/// A font-family descriptor: identity, display metadata, the ordered fallback
/// chain, and the ordered list of constituent files. Immutable after load.
#[derive(Debug, Clone)]
pub struct FontConfig {
    pub id: String,
    pub version: String,
    pub font_family: String,
    pub fallback: Vec<String>,
    pub license: String,
    pub files: Vec<FontFile>,
}

} // verus!
