use tanin::decode::{decoder_after, first_decoder, has_opus_extension, Codec};
use tanin::mixer::{Mixer, StartPlan};
use tanin::catalog::{Sound, default_icon};

#[test]
fn opus_and_webm_go_to_the_opus_decoder() {
    assert_eq!(first_decoder("sounds/rain.opus"), Codec::Opus);
    assert_eq!(first_decoder("sounds/RAIN.WEBM"), Codec::Opus);
    assert_eq!(first_decoder("sounds/rain.Opus"), Codec::Opus);
    assert_eq!(first_decoder("sounds/rain.ogg"), Codec::General);
    assert_eq!(first_decoder("sounds/opus"), Codec::General);
    assert!(has_opus_extension("a.webm"));
    assert!(!has_opus_extension("a.WEBM"));
}

#[test]
fn general_decoder_stands_behind_opus() {
    assert_eq!(decoder_after(Codec::Opus), Some(Codec::General));
    assert_eq!(decoder_after(Codec::General), None);
}

#[test]
fn truncated_opus_file_fails_both_decoders() {
    let mut sound = Sound {
        id: "rain".to_string(),
        name: "Rain".to_string(),
        category: "Nature".to_string(),
        file_path: "sounds/rain.opus".to_string(),
        volume_linear: 500,
        icon: default_icon(),
        url: None,
        error_state: false,
    };
    let mut mixer = Mixer::new();
    assert_eq!(mixer.begin_play(&sound.id), StartPlan::Fresh { cancelled_fade: false });
    // both decoders report the truncated file as broken
    let mut tried = Vec::new();
    let mut next = Some(first_decoder(&sound.file_path));
    while let Some(codec) = next {
        tried.push(codec);
        next = decoder_after(codec);
    }
    assert_eq!(tried, vec![Codec::Opus, Codec::General]);
    sound.error_state = true;
    assert!(sound.error_state);
    assert!(!mixer.is_playing(&sound.id));
    assert!(!mixer.has_handle(&sound.id));
}
