//! Synthesis request configuration: the voice, output audio format, speed and
//! quality tier that every per-chunk synthesis request carries, together with
//! the names under which the remote service knows them.

use vstd::prelude::*;

verus! {

/// The reading voices the synthesis service offers.
#[derive(Copy, Clone, Debug, PartialEq, Eq, Structural)]
pub enum Voice {
    Alloy,
    Echo,
    Fable,
    Onyx,
    Nova,
    Shimmer,
}

/// The audio container formats the synthesis service can return.
#[derive(Copy, Clone, Debug, PartialEq, Eq, Structural)]
pub enum ResponseFormat {
    Opus,
    Aac,
    Flac,
    Pcm,
    Mp3,
}

/// Per-run synthesis configuration. `speed_centi` is the playback speed in
/// hundredths (100 = normal speed); the service accepts 25 through 400.
/// `hd` selects the higher-quality synthesis model.
#[derive(Copy, Clone, Debug, PartialEq, Eq, Structural)]
pub struct SynthesisConfig {
    pub voice: Voice,
    pub format: ResponseFormat,
    pub speed_centi: u32,
    pub hd: bool,
}

/// The wire name of a voice, as the synthesis service expects it.
pub open spec fn spec_voice_name(v: Voice) -> Seq<char> {
    match v {
        Voice::Alloy => "alloy"@,
        Voice::Echo => "echo"@,
        Voice::Fable => "fable"@,
        Voice::Onyx => "onyx"@,
        Voice::Nova => "nova"@,
        Voice::Shimmer => "shimmer"@,
    }
}

/// The wire name of a response format, as the synthesis service expects it.
pub open spec fn spec_format_name(f: ResponseFormat) -> Seq<char> {
    match f {
        ResponseFormat::Opus => "opus"@,
        ResponseFormat::Aac => "aac"@,
        ResponseFormat::Flac => "flac"@,
        ResponseFormat::Pcm => "pcm"@,
        ResponseFormat::Mp3 => "mp3"@,
    }
}

/// The wire name of the synthesis model: the high-definition model when `hd`
/// is set, the standard model otherwise.
pub open spec fn spec_model_name(hd: bool) -> Seq<char> {
    if hd {
        "tts-1-hd"@
    } else {
        "tts-1"@
    }
}

impl Voice {
    /// The voice requested, or the default voice (alloy) when none was.
    pub fn or_default(choice: Option<Voice>) -> (v: Voice)
        ensures
            v == (match choice {
                Some(c) => c,
                None => Voice::Alloy,
            }),
    {
        match choice {
            Some(c) => c,
            None => Voice::Alloy,
        }
    }

    /// The name under which the synthesis service knows this voice.
    pub fn wire_name(&self) -> (r: String)
        ensures
            r@ == spec_voice_name(*self),
    {
        match self {
            Voice::Alloy => "alloy".to_owned(),
            Voice::Echo => "echo".to_owned(),
            Voice::Fable => "fable".to_owned(),
            Voice::Onyx => "onyx".to_owned(),
            Voice::Nova => "nova".to_owned(),
            Voice::Shimmer => "shimmer".to_owned(),
        }
    }
}

impl ResponseFormat {
    /// The format requested, or the default format (mp3) when none was.
    pub fn or_default(choice: Option<ResponseFormat>) -> (f: ResponseFormat)
        ensures
            f == (match choice {
                Some(c) => c,
                None => ResponseFormat::Mp3,
            }),
    {
        match choice {
            Some(c) => c,
            None => ResponseFormat::Mp3,
        }
    }

    /// The name under which the synthesis service knows this format.
    pub fn wire_name(&self) -> (r: String)
        ensures
            r@ == spec_format_name(*self),
    {
        match self {
            ResponseFormat::Opus => "opus".to_owned(),
            ResponseFormat::Aac => "aac".to_owned(),
            ResponseFormat::Flac => "flac".to_owned(),
            ResponseFormat::Pcm => "pcm".to_owned(),
            ResponseFormat::Mp3 => "mp3".to_owned(),
        }
    }
}

impl SynthesisConfig {
    /// The wire name of the synthesis model this configuration selects.
    pub fn model_name(&self) -> (r: String)
        ensures
            r@ == spec_model_name(self.hd),
    {
        if self.hd {
            "tts-1-hd".to_owned()
        } else {
            "tts-1".to_owned()
        }
    }
}

} // verus!
