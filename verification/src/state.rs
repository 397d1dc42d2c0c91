//! Audio sources, language pairs, translation styles and the registry of
//! running per-source pipelines.

use vstd::prelude::*;

verus! {

/// Where audio comes from: system playback (loopback) or the microphone.
#[derive(Clone, Copy, Debug, PartialEq, Eq, Hash, Structural)]
pub enum Source {
    System,
    Mic,
}

/// The lowercase name of a source, as shown to the frontend and in ids.
pub open spec fn source_name(s: Source) -> Seq<char> {
    match s {
        Source::System => "system"@,
        Source::Mic => "mic"@,
    }
}

impl Source {
    /// The lowercase name of the source (`"system"` or `"mic"`).
    pub fn name(&self) -> (r: &'static str)
        ensures
            r@ == source_name(*self),
    {
        match self {
            Source::System => "system",
            Source::Mic => "mic",
        }
    }

    /// The lowercase name of the source as an owned string.
    pub fn to_text(&self) -> (r: String)
        ensures
            r@ == source_name(*self),
    {
        self.name().to_owned()
    }
}

} // verus!

verus! {

/// A translation language pair. `source` may be `"auto"` for
/// auto-detection; codes are ISO 639-1 strings.
#[derive(Clone, Debug)]
pub struct LangPair {
    pub source: String,
    pub target: String,
}

/// How closely translations follow the original wording.
#[derive(Clone, Copy, Debug, PartialEq, Eq, Structural)]
pub enum TranslationStyle {
    Natural,
    Literal,
}

} // verus!
