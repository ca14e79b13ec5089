//! The speech models: their download locations and cache file names.
use vstd::prelude::*;
use crate::subtitles::{decimal, string_of};

verus! {

/// The five speech models, smallest first.
pub enum TranscriberModel {
    Tiny,
    Base,
    Small,
    Medium,
    Large,
}

/// A model's stable number, which names its cache file and is recorded as
/// the transcription model of the files it transcribes.
pub open spec fn model_ordinal(m: TranscriberModel) -> nat {
    match m {
        TranscriberModel::Tiny => 0,
        TranscriberModel::Base => 1,
        TranscriberModel::Small => 2,
        TranscriberModel::Medium => 3,
        TranscriberModel::Large => 4,
    }
}

pub open spec fn model_url_of(m: TranscriberModel) -> Seq<char> {
    match m {
        TranscriberModel::Tiny => "https://huggingface.co/ggerganov/whisper.cpp/resolve/main/ggml-tiny-q5_1.bin?download=true"@,
        TranscriberModel::Base => "https://huggingface.co/ggerganov/whisper.cpp/resolve/main/ggml-base-q5_1.bin?download=true"@,
        TranscriberModel::Small => "https://huggingface.co/ggerganov/whisper.cpp/resolve/main/ggml-small-q5_1.bin?download=true"@,
        TranscriberModel::Medium => "https://huggingface.co/ggerganov/whisper.cpp/resolve/main/ggml-medium-q5_0.bin?download=true"@,
        TranscriberModel::Large => "https://huggingface.co/ggerganov/whisper.cpp/resolve/main/ggml-large-v3-q5_0.bin?download=true"@,
    }
}

impl TranscriberModel {
    /// Where the model is downloaded from.
    pub fn url(&self) -> (r: String)
        ensures
            r@ == model_url_of(*self),
    {
        match self {
            TranscriberModel::Tiny => "https://huggingface.co/ggerganov/whisper.cpp/resolve/main/ggml-tiny-q5_1.bin?download=true".to_owned(),
            TranscriberModel::Base => "https://huggingface.co/ggerganov/whisper.cpp/resolve/main/ggml-base-q5_1.bin?download=true".to_owned(),
            TranscriberModel::Small => "https://huggingface.co/ggerganov/whisper.cpp/resolve/main/ggml-small-q5_1.bin?download=true".to_owned(),
            TranscriberModel::Medium => "https://huggingface.co/ggerganov/whisper.cpp/resolve/main/ggml-medium-q5_0.bin?download=true".to_owned(),
            TranscriberModel::Large => "https://huggingface.co/ggerganov/whisper.cpp/resolve/main/ggml-large-v3-q5_0.bin?download=true".to_owned(),
        }
    }

    pub fn ordinal(&self) -> (r: u8)
        ensures
            r == model_ordinal(*self),
    {
        match self {
            TranscriberModel::Tiny => 0,
            TranscriberModel::Base => 1,
            TranscriberModel::Small => 2,
            TranscriberModel::Medium => 3,
            TranscriberModel::Large => 4,
        }
    }

    /// The model's identifier as the catalog records it: its ordinal.
    pub fn model_id(&self) -> (r: String)
        ensures
            r@ == decimal(model_ordinal(*self)),
    {
        let d = match self {
            TranscriberModel::Tiny => '0',
            TranscriberModel::Base => '1',
            TranscriberModel::Small => '2',
            TranscriberModel::Medium => '3',
            TranscriberModel::Large => '4',
        };
        let v = vec![d];
        proof {
            assert(v@ =~= decimal(model_ordinal(*self)));
        }
        string_of(&v)
    }

    /// The name of the model's cache file: `<ordinal>.bin`.
    pub fn file_name(&self) -> (r: String)
        ensures
            r@ == decimal(model_ordinal(*self)) + seq!['.', 'b', 'i', 'n'],
    {
        let id = self.model_id();
        let mut v: Vec<char> = crate::subtitles::chars_of(id.as_str());
        v.push('.');
        v.push('b');
        v.push('i');
        v.push('n');
        proof {
            assert(v@ =~= decimal(model_ordinal(*self)) + seq!['.', 'b', 'i', 'n']);
        }
        string_of(&v)
    }

    /// The model a configuration names: `tiny`, `base`, `small`, `medium`
    /// or `large`.
    pub fn from_name(name: &str) -> (r: Option<TranscriberModel>)
        ensures
            r is Some <==> (name@ == "tiny"@ || name@ == "base"@ || name@ == "small"@ || name@
                == "medium"@ || name@ == "large"@),
            name@ == "tiny"@ ==> r == Some(TranscriberModel::Tiny),
            name@ == "base"@ ==> r == Some(TranscriberModel::Base),
            name@ == "small"@ ==> r == Some(TranscriberModel::Small),
            name@ == "medium"@ ==> r == Some(TranscriberModel::Medium),
            name@ == "large"@ ==> r == Some(TranscriberModel::Large),
    {
        proof {
            reveal_strlit("tiny");
            reveal_strlit("base");
            reveal_strlit("small");
            reveal_strlit("medium");
            reveal_strlit("large");
            assert("tiny"@[0] == 't' && "base"@[0] == 'b' && "small"@[0] == 's');
            assert("medium"@[0] == 'm' && "large"@[0] == 'l');
        }
        let n = name.to_owned();
        if n == "tiny".to_owned() {
            Some(TranscriberModel::Tiny)
        } else if n == "base".to_owned() {
            Some(TranscriberModel::Base)
        } else if n == "small".to_owned() {
            Some(TranscriberModel::Small)
        } else if n == "medium".to_owned() {
            Some(TranscriberModel::Medium)
        } else if n == "large".to_owned() {
            Some(TranscriberModel::Large)
        } else {
            None
        }
    }
}

} // verus!
