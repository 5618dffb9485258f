use tanin::catalog::Sound;
use tanin::order::{comes_before, sort_sounds};

fn sound(id: &str, category: &str) -> Sound {
    Sound {
        id: id.to_string(),
        name: id.to_string(),
        category: category.to_string(),
        file_path: String::new(),
        volume_linear: 500,
        icon: String::new(),
        url: None,
        error_state: false,
    }
}

fn ids(sounds: &[Sound]) -> Vec<&str> {
    sounds.iter().map(|s| s.id.as_str()).collect()
}

#[test]
fn configured_categories_come_first_in_their_order() {
    let mut sounds = vec![
        sound("zebra", "Animals"),
        sound("rain", "Nature"),
        sound("cafe", "City"),
        sound("wind", "Nature"),
        sound("birds", "Animals"),
        sound("train", "Travel"),
    ];
    let order = vec!["Nature".to_string(), "City".to_string()];
    sort_sounds(&mut sounds, &order);
    assert_eq!(ids(&sounds), vec!["rain", "wind", "cafe", "birds", "zebra", "train"]);
}

#[test]
fn without_an_order_categories_sort_by_name() {
    let mut sounds = vec![sound("b", "Zed"), sound("a", "Zed"), sound("c", "Alpha")];
    sort_sounds(&mut sounds, &Vec::new());
    assert_eq!(ids(&sounds), vec!["c", "a", "b"]);
}

#[test]
fn sorting_nothing_is_fine() {
    let mut sounds: Vec<Sound> = Vec::new();
    sort_sounds(&mut sounds, &Vec::new());
    assert!(sounds.is_empty());
}

#[test]
fn comparison_follows_the_configured_order() {
    let order = vec!["Nature".to_string()];
    assert!(comes_before(&sound("z", "Nature"), &sound("a", "City"), &order));
    assert!(!comes_before(&sound("a", "City"), &sound("z", "Nature"), &order));
    assert!(comes_before(&sound("a", "City"), &sound("b", "City"), &order));
    assert!(!comes_before(&sound("a", "City"), &sound("a", "City"), &order));
}
