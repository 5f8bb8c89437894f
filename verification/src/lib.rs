//! A content processing engine: a registry maps content types and file
//! extensions to per-format providers; each provider decodes one format
//! (through the respective decoder crate), splits the decoded content into
//! chunks — sliding text windows, heading-based Markdown sections,
//! `kind`-tagged structured-data subtrees, or fixed-duration audio
//! segments — extracts per-file metadata, and assembles a processing
//! result. The chunking algorithms, the registry, the result assembly, and
//! the canonical result encoding are verified; the decoder crates are
//! reached through trusted wrappers over plain values.
pub mod audio;
pub mod chunks;
pub mod codec;
pub mod document;
pub mod embed;
pub mod json;
pub mod markdown;
pub mod models;
pub mod pdf;
pub mod registry;
pub mod segment;
pub mod sliding;
pub mod strutil;
