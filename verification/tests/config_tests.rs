//! Configuration defaults and the wire names the synthesis service expects.

use tts_pipeline::config::ResponseFormat;
use tts_pipeline::config::SynthesisConfig;
use tts_pipeline::config::Voice;

#[test]
fn voices_have_their_wire_names() {
    assert_eq!(Voice::Alloy.wire_name(), "alloy");
    assert_eq!(Voice::Echo.wire_name(), "echo");
    assert_eq!(Voice::Fable.wire_name(), "fable");
    assert_eq!(Voice::Onyx.wire_name(), "onyx");
    assert_eq!(Voice::Nova.wire_name(), "nova");
    assert_eq!(Voice::Shimmer.wire_name(), "shimmer");
}

#[test]
fn formats_have_their_wire_names() {
    assert_eq!(ResponseFormat::Opus.wire_name(), "opus");
    assert_eq!(ResponseFormat::Aac.wire_name(), "aac");
    assert_eq!(ResponseFormat::Flac.wire_name(), "flac");
    assert_eq!(ResponseFormat::Pcm.wire_name(), "pcm");
    assert_eq!(ResponseFormat::Mp3.wire_name(), "mp3");
}

#[test]
fn defaults_are_alloy_and_mp3() {
    assert_eq!(Voice::or_default(None), Voice::Alloy);
    assert_eq!(Voice::or_default(Some(Voice::Nova)), Voice::Nova);
    assert_eq!(ResponseFormat::or_default(None), ResponseFormat::Mp3);
    assert_eq!(ResponseFormat::or_default(Some(ResponseFormat::Flac)), ResponseFormat::Flac);
}

#[test]
fn quality_tier_selects_the_model() {
    let standard = SynthesisConfig {
        voice: Voice::Alloy,
        format: ResponseFormat::Mp3,
        speed_centi: 100,
        hd: false,
    };
    let high = SynthesisConfig { hd: true, ..standard };
    assert_eq!(standard.model_name(), "tts-1");
    assert_eq!(high.model_name(), "tts-1-hd");
}
