use tanin::fetch::{
    candidate_files, fetch_args, final_event, first_existing, output_template, parse_percent,
    parse_progress, safe_file_stem, ToolExit, WorkerFailure,
};
use tanin::queue::DownloadEvent;

#[test]
fn stem_is_trimmed_and_safe() {
    assert_eq!(safe_file_stem("  Rain Storm! "), "Rain_Storm_");
    assert_eq!(safe_file_stem("Café 24/7"), "Café_24_7");
    assert_eq!(safe_file_stem("   "), "");
}

#[test]
fn template_leaves_the_extension_to_the_tool() {
    assert_eq!(output_template("/data/sounds/Rain"), "/data/sounds/Rain.%(ext)s");
}

#[test]
fn tool_arguments_in_order() {
    let args = fetch_args("/d/Rain.%(ext)s", "https://example.com/v");
    assert_eq!(
        args,
        vec![
            "--ignore-config",
            "--no-playlist",
            "--force-overwrites",
            "-x",
            "--audio-format",
            "opus",
            "-f",
            "ba[ext=webm]/ba",
            "-o",
            "/d/Rain.%(ext)s",
            "--newline",
            "--progress",
            "https://example.com/v",
        ]
    );
}

#[test]
fn progress_lines_are_read() {
    assert_eq!(parse_progress("[download]  23.5% of 3.20MiB at 1.00MiB/s ETA 00:02"), Some(2350));
    assert_eq!(parse_progress("[download] 100% of 3.20MiB"), Some(10000));
    assert_eq!(parse_progress("[download]   0.0% of ~3.20MiB"), Some(0));
    assert_eq!(parse_progress("[download]  45.25% x"), Some(4525));
    assert_eq!(parse_progress("[download]  45.257% x"), Some(4525));
}

#[test]
fn other_lines_report_no_progress() {
    assert_eq!(parse_progress("[info] 50% done"), None);
    assert_eq!(parse_progress("[download] Destination: Rain.webm"), None);
    assert_eq!(parse_progress("[download]50%"), None);
    assert_eq!(parse_progress("[download] abc%"), None);
    assert_eq!(parse_progress("[download] 150.0%"), None);
    assert_eq!(parse_progress(""), None);
}

#[test]
fn percentages_in_hundredths() {
    assert_eq!(parse_percent("45"), Some(4500));
    assert_eq!(parse_percent("45.0"), Some(4500));
    assert_eq!(parse_percent("7.5"), Some(750));
    assert_eq!(parse_percent("100.00"), Some(10000));
    assert_eq!(parse_percent("100.01"), None);
    assert_eq!(parse_percent("1000"), None);
    assert_eq!(parse_percent("45."), None);
    assert_eq!(parse_percent(".5"), None);
    assert_eq!(parse_percent("4.5.1"), None);
    assert_eq!(parse_percent(""), None);
}

#[test]
fn probed_files_in_order() {
    assert_eq!(
        candidate_files("Rain"),
        vec!["Rain.opus", "Rain.m4a", "Rain.mp3", "Rain.wav", "Rain.ogg"]
    );
    let c = candidate_files("Rain");
    assert_eq!(first_existing(c.clone(), &vec![false, false, true, true, false]), Some("Rain.mp3".to_string()));
    assert_eq!(first_existing(c, &vec![false; 5]), None);
}

fn finish(exit: ToolExit, found: Option<&str>) -> DownloadEvent {
    final_event(
        exit,
        found.map(|f| f.to_string()),
        "Rain".to_string(),
        "Nature".to_string(),
        "🌧".to_string(),
        "https://example.com/r".to_string(),
    )
}

fn error_text(e: DownloadEvent) -> String {
    match e {
        DownloadEvent::Error(m) => m,
        _ => panic!("expected a failure"),
    }
}

#[test]
fn success_carries_the_file_found() {
    match finish(ToolExit::Exited { success: true }, Some("/d/Rain.opus")) {
        DownloadEvent::Success(name, category, path, icon, url) => {
            assert_eq!(name, "Rain");
            assert_eq!(category, "Nature");
            assert_eq!(path, "/d/Rain.opus");
            assert_eq!(icon, "🌧");
            assert_eq!(url, "https://example.com/r");
        }
        _ => panic!("expected success"),
    }
}

#[test]
fn each_failure_has_its_reason() {
    assert_eq!(
        error_text(finish(ToolExit::Exited { success: true }, None)),
        "Download success but file not found."
    );
    assert_eq!(
        error_text(finish(ToolExit::Exited { success: false }, Some("/d/Rain.opus"))),
        "yt-dlp exited with a failure status."
    );
    assert_eq!(
        error_text(finish(ToolExit::SpawnFailed("not found".to_string()), None)),
        "Failed to start yt-dlp: not found"
    );
    assert_eq!(
        error_text(finish(ToolExit::WaitFailed("interrupted".to_string()), None)),
        "Failed to wait on child: interrupted"
    );
    assert_eq!(WorkerFailure::NoDataDir.message(), "Could not determine data directory.");
    assert_eq!(
        error_text(WorkerFailure::CreateDir("denied".to_string()).into_event()),
        "Error creating directory: denied"
    );
}
