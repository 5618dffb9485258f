use tanin::catalog::{
    add_or_update, base_path, default_icon, default_volume, entry_to_sound, id_from_lowered,
    resolve_path, sound_id, Sound, SoundEntry,
};

fn sound(id: &str, category: &str) -> Sound {
    Sound {
        id: id.to_string(),
        name: id.to_string(),
        category: category.to_string(),
        file_path: format!("assets/sounds/{}.ogg", id),
        volume_linear: 300,
        icon: "x".to_string(),
        url: None,
        error_state: true,
    }
}

#[test]
fn defaults() {
    assert_eq!(default_volume(), 500);
    assert_eq!(default_icon(), "🎵");
}

#[test]
fn ids_derive_from_names() {
    assert_eq!(sound_id("Heavy Rain"), "heavy_rain");
    assert_eq!(sound_id("Wind"), "wind");
    assert_eq!(id_from_lowered("a b c"), "a_b_c");
}

#[test]
fn downloaded_sound_is_added() {
    let mut sounds = vec![sound("wind", "Nature")];
    add_or_update(
        &mut sounds,
        "Heavy Rain".to_string(),
        "Rain".to_string(),
        "/d/Heavy_Rain.opus".to_string(),
        "🌧".to_string(),
        "https://example.com/r".to_string(),
    );
    assert_eq!(sounds.len(), 2);
    let s = &sounds[1];
    assert_eq!(s.id, "heavy_rain");
    assert_eq!(s.name, "Heavy Rain");
    assert_eq!(s.category, "Rain");
    assert_eq!(s.file_path, "/d/Heavy_Rain.opus");
    assert_eq!(s.volume_linear, 500);
    assert_eq!(s.url.as_deref(), Some("https://example.com/r"));
    assert!(!s.error_state);
}

#[test]
fn downloaded_sound_updates_its_namesake() {
    let mut sounds = vec![sound("wind", "Nature"), sound("heavy_rain", "Rain")];
    add_or_update(
        &mut sounds,
        "Heavy Rain".to_string(),
        "Other".to_string(),
        "/d/Heavy_Rain.opus".to_string(),
        "🌧".to_string(),
        "https://example.com/r".to_string(),
    );
    assert_eq!(sounds.len(), 2);
    let s = &sounds[1];
    assert_eq!(s.category, "Rain");
    assert_eq!(s.file_path, "/d/Heavy_Rain.opus");
    assert_eq!(s.volume_linear, 300);
    assert_eq!(s.url.as_deref(), Some("https://example.com/r"));
    assert!(!s.error_state);
}

#[test]
fn base_path_drops_trailing_slashes() {
    assert_eq!(base_path(Some("/music/")), "/music");
    assert_eq!(base_path(Some("/music//")), "/music");
    assert_eq!(base_path(Some("music")), "music");
    assert_eq!(base_path(None), "assets/sounds");
}

#[test]
fn relative_files_resolve_against_the_base() {
    assert_eq!(resolve_path("rain.ogg".to_string(), false, "assets/sounds"), "assets/sounds/rain.ogg");
    assert_eq!(resolve_path("/x/rain.ogg".to_string(), true, "assets/sounds"), "/x/rain.ogg");
}

#[test]
fn entries_take_defaults() {
    let e = SoundEntry { name: None, file: None, volume: 500, icon: "🎵".to_string(), url: None };
    let s = entry_to_sound("Nature", "light_rain", e, "assets/sounds");
    assert_eq!(s.id, "light_rain");
    assert_eq!(s.name, "light rain");
    assert_eq!(s.category, "Nature");
    assert_eq!(s.file_path, "assets/sounds/light_rain.ogg");
    assert!(!s.error_state);
    let e = SoundEntry {
        name: Some("Big Fire".to_string()),
        file: None,
        volume: 700,
        icon: "🔥".to_string(),
        url: Some("https://example.com/f".to_string()),
    };
    let s = entry_to_sound("Home", "fire", e, "/base");
    assert_eq!(s.name, "Big Fire");
    assert_eq!(s.file_path, "/base/big_fire.ogg");
    assert_eq!(s.volume_linear, 700);
    assert_eq!(s.url.as_deref(), Some("https://example.com/f"));
}

#[test]
fn absolute_files_stay_as_they_are() {
    let e = SoundEntry {
        name: None,
        file: Some("/opt/sounds/rain.ogg".to_string()),
        volume: 500,
        icon: "🎵".to_string(),
        url: None,
    };
    let s = entry_to_sound("Nature", "rain", e, "assets/sounds");
    assert_eq!(s.file_path, "/opt/sounds/rain.ogg");
}
