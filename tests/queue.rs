use tanin::queue::{DownloadEvent, DownloadQueue, DownloadStatus};

fn request(q: &mut DownloadQueue, name: &str) {
    q.enqueue(name.to_string(), "Nature".to_string(), "🌧".to_string(), format!("https://example.com/{}", name));
}

fn success(name: &str) -> DownloadEvent {
    DownloadEvent::Success(
        name.to_string(),
        "Nature".to_string(),
        format!("/tmp/{}.opus", name),
        "🌧".to_string(),
        format!("https://example.com/{}", name),
    )
}

fn downloading(q: &DownloadQueue) -> usize {
    q.tasks().iter().filter(|t| matches!(t.status, DownloadStatus::Downloading(_))).count()
}

#[test]
fn rain_then_wind_scenario() {
    let mut q = DownloadQueue::new();
    request(&mut q, "Rain");
    request(&mut q, "Wind");
    assert_eq!(q.admit_next(), Some(0));
    assert!(matches!(q.tasks()[0].status, DownloadStatus::Downloading(0)));
    assert!(matches!(q.tasks()[1].status, DownloadStatus::Pending));
    q.apply_event(&DownloadEvent::Progress(4500));
    assert!(matches!(q.tasks()[0].status, DownloadStatus::Downloading(4500)));
    assert_eq!(q.active_index(), Some(0));
    q.apply_event(&success("Rain"));
    assert!(matches!(q.tasks()[0].status, DownloadStatus::Done));
    assert_eq!(q.active_index(), None);
    assert_eq!(q.admit_next(), Some(1));
    assert!(matches!(q.tasks()[1].status, DownloadStatus::Downloading(0)));
}

#[test]
fn tasks_resolve_in_request_order() {
    let mut q = DownloadQueue::new();
    request(&mut q, "A");
    request(&mut q, "B");
    request(&mut q, "C");
    let mut order = Vec::new();
    for tick in 0..3 {
        let admitted = q.admit_next().expect("a pending task");
        order.push(q.tasks()[admitted].name.clone());
        assert_eq!(downloading(&q), 1);
        // nothing else is admitted while one task runs
        assert_eq!(q.admit_next(), None);
        if tick == 1 {
            q.apply_event(&DownloadEvent::Error("boom".to_string()));
        } else {
            q.apply_event(&success(&order[tick]));
        }
        assert_eq!(downloading(&q), 0);
    }
    assert_eq!(order, vec!["A", "B", "C"]);
    assert!(matches!(q.tasks()[0].status, DownloadStatus::Done));
    assert!(matches!(&q.tasks()[1].status, DownloadStatus::Error(m) if m == "boom"));
    assert!(matches!(q.tasks()[2].status, DownloadStatus::Done));
    assert_eq!(q.admit_next(), None);
}

#[test]
fn empty_queue_admits_nothing() {
    let mut q = DownloadQueue::new();
    assert_eq!(q.admit_next(), None);
    assert_eq!(q.active_index(), None);
    assert!(q.tasks().is_empty());
}

#[test]
fn closed_channel_fails_the_active_task() {
    let mut q = DownloadQueue::new();
    request(&mut q, "Rain");
    q.admit_next();
    q.disconnect();
    assert!(matches!(&q.tasks()[0].status, DownloadStatus::Error(m) if m == "Thread disconnected"));
    assert_eq!(q.active_index(), None);
    assert_eq!(q.admit_next(), None);
}

#[test]
fn events_without_an_active_task_change_nothing() {
    let mut q = DownloadQueue::new();
    request(&mut q, "Rain");
    q.apply_event(&DownloadEvent::Progress(100));
    q.apply_event(&DownloadEvent::Error("late".to_string()));
    q.disconnect();
    assert!(matches!(q.tasks()[0].status, DownloadStatus::Pending));
}

#[test]
fn resolved_tasks_stay_for_display() {
    let mut q = DownloadQueue::new();
    request(&mut q, "Rain");
    q.admit_next();
    q.apply_event(&DownloadEvent::Error("no network".to_string()));
    request(&mut q, "Wind");
    assert_eq!(q.admit_next(), Some(1));
    assert_eq!(q.tasks().len(), 2);
    assert_eq!(q.tasks()[0].name, "Rain");
    assert!(matches!(&q.tasks()[0].status, DownloadStatus::Error(m) if m == "no network"));
}
