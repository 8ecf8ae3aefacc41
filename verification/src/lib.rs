//! A module-dependency index for a tree of source files: text-level
//! extraction of import and require specifiers, chunked processing, a
//! chunked binary cache with a proved round trip, and a deterministic
//! canonical rendering for comparing indexes.

pub mod types;
pub mod text;
pub mod js_parser;
pub mod utils;
pub mod canonical;
pub mod cache_codec;
pub mod haste_map;
pub mod laws;
