//! Merging of Valve pak (VPK) archives into one version-1 archive.
//!
//! The verified core stages the files of several source archives into one
//! content set (later sources override earlier ones, root-level files are
//! left out) and encodes that set in the version-1 VPK layout. Around it
//! stand the small decisions of the mod manager: where the game's folders
//! are, what a mod is called, how gameinfo.txt gains the mods search path,
//! and what a request answers.
pub mod archive;
pub mod bytes;
pub mod merge;
pub mod mod_types;
pub mod outcome;
pub mod paths;
pub mod reread;
pub mod staging;
pub mod text;
pub mod vpk_path;

pub use archive::{pack_vpk_v1, PackError};
pub use merge::{extract_vpk, merge_sources, SourceFile};
pub use mod_types::{MergeResult, Mod};
pub use outcome::{delete_outcome, merge_outcome};
pub use paths::{get_game_dir, get_gameinfo_path, get_mods_path, get_workshop_path, TEMP_NAME};
pub use staging::{Entry, StagingSet};
pub use text::{inject_game_mods_line, parse_addon_title};
pub use vpk_path::{is_root_level, split_path};
