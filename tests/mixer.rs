use tanin::mixer::{FadeStep, Mixer, Phase, StartPlan, FADE_MS, MIXED_FULL, VOLUME_FULL};

fn id(s: &str) -> String {
    s.to_string()
}

fn start(m: &mut Mixer, name: &str, volume: u32) -> Option<u32> {
    match m.begin_play(&id(name)) {
        StartPlan::AlreadyPlaying => None,
        StartPlan::Fresh { .. } => Some(m.commit_play(id(name), volume)),
    }
}

#[test]
fn new_mixer_is_silent_at_full_master() {
    let m = Mixer::new();
    assert_eq!(m.master_volume(), VOLUME_FULL);
    assert!(!m.is_playing(&id("rain")));
    assert!(!m.has_handle(&id("rain")));
}

#[test]
fn start_twice_keeps_one_instance() {
    let mut m = Mixer::new();
    assert_eq!(start(&mut m, "rain", 500), Some(500_000));
    assert_eq!(m.begin_play(&id("rain")), StartPlan::AlreadyPlaying);
    assert!(m.is_playing(&id("rain")));
    assert_eq!(m.track_volume(&id("rain")), Some(500));
}

#[test]
fn restart_during_fade_cancels_the_fade() {
    let mut m = Mixer::new();
    start(&mut m, "wind", 800);
    assert!(m.stop(&id("wind")));
    assert!(!m.is_playing(&id("wind")));
    assert!(m.has_handle(&id("wind")));
    m.update(500);
    assert_eq!(m.begin_play(&id("wind")), StartPlan::Fresh { cancelled_fade: true });
    assert!(!m.has_handle(&id("wind")));
    assert_eq!(m.commit_play(id("wind"), 300), 300_000);
    assert!(m.is_playing(&id("wind")));
    // the old fade is gone: time passing yields no step for the track
    assert!(m.update(FADE_MS).is_empty());
    assert!(m.is_playing(&id("wind")));
}

#[test]
fn fresh_start_has_no_fade_to_cancel() {
    let mut m = Mixer::new();
    assert_eq!(m.begin_play(&id("fire")), StartPlan::Fresh { cancelled_fade: false });
}

#[test]
fn effective_volume_is_track_times_master() {
    let mut m = Mixer::new();
    start(&mut m, "rain", 500);
    start(&mut m, "wind", 1000);
    let applied = m.set_master_volume(400);
    assert_eq!(applied.len(), 2);
    for (track, v) in applied {
        if track == "rain" {
            assert_eq!(v, 200_000);
        } else {
            assert_eq!(track, "wind");
            assert_eq!(v, 400_000);
        }
    }
    assert_eq!(m.set_volume(&id("rain"), 250), Some(100_000));
    assert_eq!(m.set_volume(&id("birds"), 250), None);
    assert_eq!(m.track_volume(&id("birds")), Some(250));
}

#[test]
fn volumes_are_clamped_to_full_scale() {
    let mut m = Mixer::new();
    assert_eq!(start(&mut m, "rain", 5000), Some(MIXED_FULL));
    m.set_master_volume(2000);
    assert_eq!(m.master_volume(), VOLUME_FULL);
    assert_eq!(m.set_volume(&id("rain"), 1001), Some(MIXED_FULL));
    assert_eq!(m.track_volume(&id("rain")), Some(VOLUME_FULL));
}

#[test]
fn fading_track_keeps_its_fade_on_volume_changes() {
    let mut m = Mixer::new();
    start(&mut m, "rain", 1000);
    m.stop(&id("rain"));
    assert_eq!(m.set_volume(&id("rain"), 100), None);
    assert!(m.set_master_volume(500).is_empty());
    let steps = m.update(FADE_MS / 2);
    assert_eq!(steps.len(), 1);
    match &steps[0] {
        FadeStep::Lower { id, volume } => {
            assert_eq!(id, "rain");
            assert_eq!(*volume, 500_000);
        }
        FadeStep::Release { .. } => panic!("the fade is not over"),
    }
}

#[test]
fn fade_reaches_half_then_silence() {
    let mut m = Mixer::new();
    start(&mut m, "rain", 600);
    m.stop(&id("rain"));
    let steps = m.update(FADE_MS / 2);
    match &steps[0] {
        FadeStep::Lower { volume, .. } => assert_eq!(*volume, 300_000),
        FadeStep::Release { .. } => panic!("the fade is not over"),
    }
    let steps = m.update(FADE_MS / 2);
    assert_eq!(steps.len(), 1);
    assert!(matches!(&steps[0], FadeStep::Release { id } if id == "rain"));
    assert!(!m.has_handle(&id("rain")));
}

#[test]
fn fade_of_full_length_releases_at_once() {
    let mut m = Mixer::new();
    start(&mut m, "rain", 1000);
    m.stop(&id("rain"));
    let steps = m.update(FADE_MS);
    assert!(matches!(&steps[0], FadeStep::Release { .. }));
    assert!(!m.is_playing(&id("rain")));
}

#[test]
fn start_stop_fade_leaves_no_state() {
    let mut m = Mixer::new();
    start(&mut m, "rain", 700);
    m.stop(&id("rain"));
    m.update(FADE_MS + 10);
    assert!(!m.is_playing(&id("rain")));
    assert!(!m.has_handle(&id("rain")));
    assert_eq!(m.track_volume(&id("rain")), None);
}

#[test]
fn stop_of_a_silent_track_does_nothing() {
    let mut m = Mixer::new();
    assert!(!m.stop(&id("rain")));
    assert!(m.update(100).is_empty());
}

#[test]
fn stop_all_drops_every_handle() {
    let mut m = Mixer::new();
    start(&mut m, "rain", 500);
    start(&mut m, "wind", 500);
    m.stop(&id("wind"));
    m.stop_all();
    assert!(!m.has_handle(&id("rain")));
    assert!(!m.has_handle(&id("wind")));
    assert!(m.update(FADE_MS).is_empty());
    assert_eq!(m.track_volume(&id("rain")), Some(500));
}

#[test]
fn phases_compare_by_value() {
    assert_eq!(Phase::Playing { volume: 3 }, Phase::Playing { volume: 3 });
    assert_ne!(Phase::Playing { volume: 3 }, Phase::FadingOut { start_volume: 3, elapsed_ms: 0 });
}
