//! The library's error kinds. Each carries a one-line diagnostic.
use vstd::prelude::*;

verus! {

pub enum EngramError {
    IoError(String),
    WhisperError(String),
    SubtitleParseError(String),
    WalkDirError(String),
    MediaError(String),
    FFmpegError(String),
    TantivyError(String),
    SearchError(String),
    HttpError(String),
}

impl EngramError {
    /// The diagnostic line, without the kind.
    pub fn message(&self) -> (r: &String)
        ensures
            match self {
                EngramError::IoError(m) => r == m,
                EngramError::WhisperError(m) => r == m,
                EngramError::SubtitleParseError(m) => r == m,
                EngramError::WalkDirError(m) => r == m,
                EngramError::MediaError(m) => r == m,
                EngramError::FFmpegError(m) => r == m,
                EngramError::TantivyError(m) => r == m,
                EngramError::SearchError(m) => r == m,
                EngramError::HttpError(m) => r == m,
            },
    {
        match self {
            EngramError::IoError(m) => m,
            EngramError::WhisperError(m) => m,
            EngramError::SubtitleParseError(m) => m,
            EngramError::WalkDirError(m) => m,
            EngramError::MediaError(m) => m,
            EngramError::FFmpegError(m) => m,
            EngramError::TantivyError(m) => m,
            EngramError::SearchError(m) => m,
            EngramError::HttpError(m) => m,
        }
    }
}

pub type EngramResult<T> = Result<T, EngramError>;

} // verus!
