use tanin::catalog::Sound;
use tanin::player::{enqueue_missing, request_download, step_volume, MuteState, RequestError};
use tanin::queue::{DownloadQueue, DownloadStatus};

fn sound(name: &str, url: Option<&str>) -> Sound {
    Sound {
        id: name.to_lowercase(),
        name: name.to_string(),
        category: "Nature".to_string(),
        file_path: format!("/d/{}.opus", name),
        volume_linear: 500,
        icon: "🎵".to_string(),
        url: url.map(|u| u.to_string()),
        error_state: false,
    }
}

#[test]
fn requests_need_name_category_and_url() {
    let mut q = DownloadQueue::new();
    assert_eq!(request_download(&mut q, " ", "Nature", "", "https://x"), Err(RequestError::MissingField));
    assert_eq!(request_download(&mut q, "Rain", "", "", "https://x"), Err(RequestError::MissingField));
    assert_eq!(request_download(&mut q, "Rain", "Nature", "", "\t"), Err(RequestError::MissingField));
    assert!(q.tasks().is_empty());
    assert_eq!(RequestError::MissingField.message(), "Error: All fields (except icon) are required.");
    assert_eq!(request_download(&mut q, "Rain", "Nature", "", "  https://x/r  "), Ok(()));
    assert_eq!(q.tasks().len(), 1);
    assert_eq!(q.tasks()[0].url, "https://x/r");
    assert_eq!(q.tasks()[0].name, "Rain");
    assert!(matches!(q.tasks()[0].status, DownloadStatus::Pending));
}

#[test]
fn missing_files_with_a_source_are_queued() {
    let sounds = vec![
        sound("Rain", Some("https://x/r")),
        sound("Wind", None),
        sound("Fire", Some("  ")),
        sound("Birds", Some("https://x/b")),
        sound("Cafe", Some("https://x/c")),
    ];
    let mut q = DownloadQueue::new();
    enqueue_missing(&mut q, &sounds, &vec![true, true, true, false, true], true);
    let names: Vec<&str> = q.tasks().iter().map(|t| t.name.as_str()).collect();
    assert_eq!(names, vec!["Rain", "Cafe"]);
    let mut q = DownloadQueue::new();
    enqueue_missing(&mut q, &sounds, &vec![true; 5], false);
    assert!(q.tasks().is_empty());
}

#[test]
fn mute_remembers_the_volume() {
    let mut m = MuteState { muted: false, previous_volume: 500 };
    assert_eq!(m.toggle(700), 0);
    assert!(m.muted);
    assert_eq!(m.previous_volume, 700);
    assert_eq!(m.toggle(0), 700);
    assert!(!m.muted);
}

#[test]
fn volume_steps_stay_in_range() {
    assert_eq!(step_volume(500, true, 50), 550);
    assert_eq!(step_volume(980, true, 50), 1000);
    assert_eq!(step_volume(30, false, 50), 0);
    assert_eq!(step_volume(500, false, 50), 450);
}

#[test]
fn categories_are_suggested_by_prefix() {
    let cats = vec!["Nature".to_string(), "Noise".to_string(), "City".to_string()];
    assert_eq!(tanin::player::suggest_category(&cats, "no"), Some("Noise".to_string()));
    assert_eq!(tanin::player::suggest_category(&cats, "NA"), Some("Nature".to_string()));
    assert_eq!(tanin::player::suggest_category(&cats, "city"), None);
    assert_eq!(tanin::player::suggest_category(&cats, ""), None);
    assert_eq!(tanin::player::suggest_category(&cats, "x"), None);
}
