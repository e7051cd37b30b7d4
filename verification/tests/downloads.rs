use cliproam::downloads::{
    is_active, task_label, DownloadRequest, DownloadStatus, Downloader, TaskOutcome, VirtualDownloads,
    MAX_CONCURRENT_DOWNLOADS,
};

fn request(file_id: &str, size: u64) -> DownloadRequest {
    DownloadRequest { file_id: file_id.to_string(), size }
}

fn ids(prefix: &str, n: usize) -> Vec<String> {
    (0..n).map(|i| format!("{prefix}{i}")).collect()
}

fn status_of(d: &Downloader, id: &str) -> DownloadStatus {
    d.tasks.iter().find(|t| t.id == id).unwrap().status
}

#[test]
fn at_most_four_downloads_run_and_the_rest_wait_in_order() {
    let mut d = Downloader::new();
    let files: Vec<DownloadRequest> = (0..6).map(|i| request(&format!("{i:064}"), 10)).collect();
    let (watchers, starts) = d.enqueue_batch("e1", &files, None, Some("bundle"), &ids("t", 6));
    assert_eq!(watchers, ids("t", 6));
    assert_eq!(starts.len(), MAX_CONCURRENT_DOWNLOADS);
    assert_eq!(starts.iter().map(|s| s.task_id.clone()).collect::<Vec<_>>(), ids("t", 4));
    assert_eq!(d.active, 4);
    assert_eq!(status_of(&d, "t4"), DownloadStatus::Queued);
    assert_eq!(d.tasks[0].label, "bundle (1/6)");
    assert_eq!(d.next_batch_id, 2);

    // A finished transfer frees its slot for the first waiting task.
    let next = d.complete("t1", TaskOutcome::Succeeded);
    assert_eq!(next.len(), 1);
    assert_eq!(next[0].task_id, "t4");
    assert_eq!(status_of(&d, "t1"), DownloadStatus::Succeeded);
    assert_eq!(d.tasks[1].received_bytes, 10);
    assert_eq!(d.active, 4);
}

#[test]
fn a_file_already_in_flight_joins_its_task() {
    let mut d = Downloader::new();
    let files = vec![request(&"a".repeat(64), 5)];
    d.enqueue_batch("e1", &files, None, None, &ids("x", 1));
    let (watchers, starts) = d.enqueue_batch("e2", &files, None, None, &ids("y", 1));
    assert_eq!(watchers, vec!["x0".to_string()]);
    assert!(starts.is_empty());
    assert_eq!(d.tasks.len(), 1);
    // A different save session is a different key.
    let (watchers, _) = d.enqueue_batch("e2", &files, Some("s".to_string()), None, &ids("z", 1));
    assert_eq!(watchers, vec!["z0".to_string()]);
    assert_eq!(d.tasks.len(), 2);
}

#[test]
fn cancelling_ends_a_task_once() {
    let mut d = Downloader::new();
    let files: Vec<DownloadRequest> = (0..5).map(|i| request(&format!("{i:064}"), 10)).collect();
    d.enqueue_batch("e1", &files, None, None, &ids("t", 5));
    assert!(d.cancel_task("t4", "stop"));
    assert_eq!(status_of(&d, "t4"), DownloadStatus::Cancelled);
    assert_eq!(d.tasks[4].error.as_deref(), Some("stop"));
    assert!(!d.cancel_task("t4", "again"));
    assert!(!d.cancel_task("missing", "x"));
    // Cancelling a running transfer keeps its slot until the worker reports.
    assert!(d.cancel_task("t0", "stop"));
    assert_eq!(d.active, 4);
    let next = d.complete("t0", TaskOutcome::Cancelled("stop".to_string()));
    assert!(next.is_empty());
    assert_eq!(d.active, 3);
    assert!(d.prune("t0"));
    assert!(!d.prune("t1"));
    assert_eq!(d.tasks.len(), 4);
}

#[test]
fn bulk_cancels_reach_their_scope() {
    let mut d = Downloader::new();
    let a: Vec<DownloadRequest> = (0..2).map(|i| request(&format!("{i:064}"), 1)).collect();
    let b: Vec<DownloadRequest> = (2..5).map(|i| request(&format!("{i:064}"), 1)).collect();
    d.enqueue_batch("a", &a, None, None, &ids("a", 2));
    d.enqueue_batch("b", &b, Some("save".to_string()), None, &ids("b", 3));
    assert_eq!(d.cancel_entry("a"), 2);
    assert_eq!(d.cancel_entry("a"), 0);
    assert!(d.cancel_by_save_id("save"));
    assert!(!d.stop_all("bye"));
    assert!(d.tasks.iter().all(|t| !is_active(t.status)));
    assert_eq!(d.tasks[0].error.as_deref(), Some("已取消"));
    assert_eq!(d.tasks[2].error.as_deref(), Some("另存为已取消"));
}

#[test]
fn snapshot_lists_running_then_waiting_then_finished() {
    let mut d = Downloader::new();
    let files: Vec<DownloadRequest> = (0..6).map(|i| request(&format!("{i:064}"), 3)).collect();
    d.enqueue_batch("e", &files, None, None, &ids("t", 6));
    d.complete("t0", TaskOutcome::Failed("boom".to_string()));
    d.progress("t1", 2);
    let list = d.snapshot();
    let order: Vec<String> = list.iter().map(|t| t.id.clone()).collect();
    assert_eq!(order, vec!["t1", "t2", "t3", "t4", "t5", "t0"]);
    assert_eq!(list[0].received_bytes, 2);
    assert_eq!(list[5].status, DownloadStatus::Failed);
    assert_eq!(list[5].error.as_deref(), Some("boom"));
}

#[test]
fn task_labels_number_the_files_of_a_batch() {
    assert_eq!(task_label(Some("  docs "), 0, 3, "ignored"), "docs (1/3)");
    assert_eq!(task_label(Some("docs"), 0, 1, "ignored"), "docs");
    assert_eq!(task_label(None, 1, 2, "0123456789abcdef"), "01234567… (2/2)");
    assert_eq!(task_label(Some("   "), 0, 1, "abc"), "abc…");
}

#[test]
fn virtual_requests_are_asked_once_until_they_fail() {
    let mut v = VirtualDownloads::new();
    assert!(v.request("f"));
    assert!(!v.request("f"));
    v.fail("f", "lost".to_string());
    assert!(v.request("f"));
    v.begin("f");
    v.complete("f");
    assert!(!v.request("f"));
    assert!(v.request("g"));
    assert_eq!(v.transfers.len(), 2);
}

use cliproam::downloads::{should_schedule_prune, ProgressAction, ProgressThrottle};

#[test]
fn progress_events_are_throttled_and_flushed_once() {
    let mut throttle = ProgressThrottle::new();
    assert_eq!(throttle.on_progress(1000), ProgressAction::Emit);
    assert_eq!(throttle.on_progress(1100), ProgressAction::ScheduleFlush);
    assert_eq!(throttle.on_progress(1150), ProgressAction::Wait);
    assert!(throttle.on_flush(1300));
    assert!(!throttle.on_flush(1301));
    assert_eq!(throttle.on_progress(1400), ProgressAction::ScheduleFlush);
    assert_eq!(throttle.on_progress(1500), ProgressAction::Emit);
    assert!(!throttle.emit_pending);
}

#[test]
fn only_finished_tasks_are_pruned() {
    assert!(!should_schedule_prune(Some(DownloadStatus::Queued)));
    assert!(!should_schedule_prune(Some(DownloadStatus::Downloading)));
    assert!(should_schedule_prune(Some(DownloadStatus::Failed)));
    assert!(should_schedule_prune(None));
}
