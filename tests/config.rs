use tanin::catalog::Sound;
use tanin::config::{get_filtered_sounds, is_shown, search_match, Config, CurrentView, GeneralConfig, SoundConfig};

fn sound(id: &str, name: &str, category: &str) -> Sound {
    Sound {
        id: id.to_string(),
        name: name.to_string(),
        category: category.to_string(),
        file_path: String::new(),
        volume_linear: 500,
        icon: String::new(),
        url: None,
        error_state: false,
    }
}

#[test]
fn default_settings() {
    let c = Config::default();
    assert!(c.general.enable_bundled_sounds);
    assert!(c.general.category_order.is_empty());
    assert!(c.general.hidden_categories.is_empty());
    assert_eq!(c.audio.sample_rate, 44100);
    assert_eq!(c.audio.buffer_size, 100);
    assert!(c.sounds.is_empty());
    let g = GeneralConfig::default();
    assert!(g.enable_bundled_sounds);
}

#[test]
fn hidden_sounds_and_categories_are_filtered() {
    let sounds = vec![
        sound("rain", "Rain", "Nature"),
        sound("cafe", "Cafe", "City"),
        sound("wind", "Wind", "Nature"),
        sound("train", "Train", "Travel"),
    ];
    let mut c = Config::default();
    c.general.hidden_categories.push("City".to_string());
    c.sounds.push(("wind".to_string(), SoundConfig { hidden: true }));
    c.sounds.push(("train".to_string(), SoundConfig { hidden: false }));
    assert_eq!(get_filtered_sounds(&sounds, &c, ""), vec![0, 3]);
    assert!(!is_shown(&sounds[1], &c, ""));
}

#[test]
fn search_ignores_case_and_looks_at_category() {
    let sounds = vec![
        sound("rain", "Heavy Rain", "Nature"),
        sound("cafe", "Cafe", "City"),
        sound("wind", "Wind", "Nature"),
    ];
    let c = Config::default();
    assert_eq!(get_filtered_sounds(&sounds, &c, "RAIN"), vec![0]);
    assert_eq!(get_filtered_sounds(&sounds, &c, "nat"), vec![0, 2]);
    assert_eq!(get_filtered_sounds(&sounds, &c, "zzz"), Vec::<usize>::new());
    assert!(search_match("heavy rain", "nature", "vy r"));
    assert!(!search_match("heavy rain", "nature", "city"));
}

#[test]
fn views_compare() {
    assert_eq!(CurrentView::Main, CurrentView::Main);
    assert_ne!(CurrentView::Help, CurrentView::Downloads);
}
