//! Indexing and phrase search over the spoken content of a local video
//! library: subtitle codec, catalog of indexed files, transcript sources,
//! the decisions of an index pass, and the state of the front-end.
use vstd::prelude::*;
use crate::catalog::opt_view;

pub mod catalog;
pub mod decoder_args;
pub mod errors;
pub mod index;
pub mod indexer;
pub mod media;
pub mod pages;
pub mod search;
pub mod subtitle_laws;
pub mod subtitles;
pub mod text;
pub mod transcribe;
pub mod ui;

verus! {

/// The user's settings: where the decoder binary is, and which speech model
/// to use.
pub struct UserConfig {
    pub ffmpeg_bin: Option<String>,
    pub whisper_model: Option<String>,
}

impl UserConfig {
    /// Settings with the model defaulting to `base`.
    pub fn new(ffmpeg_bin: Option<String>, whisper_model: Option<String>) -> (r: UserConfig)
        ensures
            opt_view(r.ffmpeg_bin) == opt_view(ffmpeg_bin),
            opt_view(r.whisper_model) == if whisper_model is None {
                Some("base"@)
            } else {
                opt_view(whisper_model)
            },
    {
        let whisper_model = match whisper_model {
            None => Some("base".to_owned()),
            Some(m) => Some(m),
        };
        UserConfig { ffmpeg_bin, whisper_model }
    }
}

} // verus!
