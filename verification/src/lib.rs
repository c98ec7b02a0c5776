//! Podcast search tooling: splitting 16 kHz speech into voiced chunks, turning RSS
//! feed items into episodes, planning which episodes to transcribe, and assembling
//! transcripts and audio metadata.
pub mod chunker;
pub mod feed;
pub mod common;
pub mod jupiter_common;
pub mod downloader;
pub mod stt;
pub mod metadata;
pub mod workers;
pub mod search;
