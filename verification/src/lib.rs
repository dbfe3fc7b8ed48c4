//! Core logic of an audio-book server: header grammars for proxy headers,
//! archive and gzip encodings, chapter arithmetic, playlists, positions,
//! caches and small HTTP helpers, all with machine-checked contracts.
pub mod header_parser;
pub mod forwarded;
pub mod util;
pub mod zip;
pub mod audio_meta;
pub mod chapters;
pub mod playlist;
pub mod position;
pub mod collator;
pub mod options;
pub mod cache_paths;
pub mod numbers;
pub mod chapter_files;
pub mod http;
pub mod file_cache;
pub mod update;
pub mod tar;
pub mod leaky;
pub mod dirtree;
pub mod media;
pub mod folder_tags;
pub mod folder_listing;
pub mod folder_plan;
pub mod gzip_stream;
