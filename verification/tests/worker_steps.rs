use cpr::progress::{ProgressEvent, ProgressTracker};
use cpr::types::CopyInfo;
use cpr::worker::{finish_task, link_action, task_action, CopyError, TaskAction};

fn task(name: &str, is_symlink: bool, size: u64) -> CopyInfo {
    CopyInfo {
        src_path: format!("/from/{}", name),
        dst_path: format!("/to/{}", name),
        is_symlink,
        size,
    }
}

#[test]
fn regular_file_gets_its_bytes_copied() {
    let t = task("data.bin", false, 64);
    match task_action(&t) {
        TaskAction::CopyFileBytes { src_path, dst_path } => {
            assert_eq!(src_path, "/from/data.bin");
            assert_eq!(dst_path, "/to/data.bin");
        }
        TaskAction::ReadLinkTarget { .. } => panic!("a regular file must not be read as a link"),
    }
}

#[test]
fn symlink_target_is_recreated_verbatim() {
    let t = task("alias", true, 20);
    match task_action(&t) {
        TaskAction::ReadLinkTarget { src_path } => assert_eq!(src_path, "/from/alias"),
        TaskAction::CopyFileBytes { .. } => panic!("a symlink must not be copied as file bytes"),
    }
    // The destination link carries exactly the target text that was read,
    // relative form included; the target file's contents are never touched.
    let a = link_action(&t, "../other/file.txt");
    assert_eq!(a.link_path, "/to/alias");
    assert_eq!(a.target, "../other/file.txt");
}

#[test]
fn every_task_reports_an_event_even_on_failure() {
    let t = task("locked", false, 77);
    let (event, error) = finish_task(&t, Some("permission denied".to_string()));
    assert_eq!(event.size, 77);
    let err = error.expect("a failed task must leave an error record");
    assert_eq!(err.path, "/from/locked");
    assert_eq!(err.message, "permission denied");

    let (event, error) = finish_task(&t, None);
    assert_eq!(event.size, 77);
    assert!(error.is_none());
}

#[test]
fn one_failure_does_not_stop_the_bucket() {
    // A bucket of three tasks where the middle copy fails: the run still
    // reports one event per task, the full planned byte total, and exactly
    // one error naming the failing path.
    let bucket = vec![task("a", false, 10), task("b", false, 20), task("c", true, 30)];
    let mut tracker = ProgressTracker::new(60);
    let mut errors: Vec<CopyError> = Vec::new();
    let mut events: Vec<ProgressEvent> = Vec::new();
    for t in &bucket {
        let failure = if t.src_path == "/from/b" {
            Some("simulated permission error".to_string())
        } else {
            None
        };
        let (event, error) = finish_task(t, failure);
        tracker.on_event(&event);
        events.push(event);
        if let Some(e) = error {
            errors.push(e);
        }
    }
    assert_eq!(events.len(), bucket.len());
    assert_eq!(tracker.events, 3);
    assert_eq!(tracker.copied_bytes, 60);
    assert_eq!(tracker.percent_hundredths(), 10000);
    assert_eq!(errors.len(), 1);
    assert_eq!(errors[0].path, "/from/b");
    assert_eq!(errors[0].message, "simulated permission error");
}
