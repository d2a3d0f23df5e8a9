//! Verified core of an NCM audio decoder.
//!
//! The container is read in [`ncm_file`] and decoded in [`decode`], with the
//! ciphers of [`ncm_decrypt`]. Tags are edited in [`id3`] and [`flac`], lyrics in
//! [`lrc`]. The other modules hold the decisions of the application around the
//! decoder. The modules whose names end in `laws` state what holds of several
//! functions together.

pub mod bytes;
pub mod decision_laws;
pub mod decode;
pub mod desktop_notify;
pub mod embed_laws;
pub mod file_watcher;
pub mod flac;
pub mod flac_block_laws;
pub mod flac_content_laws;
pub mod flac_laws;
pub mod id3;
pub mod id3_content_laws;
pub mod id3_laws;
pub mod json;
pub mod logger;
pub mod lrc;
pub mod lrc_laws;
pub mod monitor;
pub mod ncm_decrypt;
pub mod ncm_file;
pub mod ncm_laws;
pub mod paths;
pub mod pipeline;
pub mod queue;
pub mod settings;
pub mod shell;
pub mod text;
pub mod text_laws;
