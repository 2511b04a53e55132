// Drives the three verified stages together on an in-memory tree: scan,
// byte-balanced split, simulated worker steps, and progress aggregation.

use cpr::progress::{completion_message, percent_string, ProgressTracker};
use cpr::scan::{bytes_in_file_list, scan_source_prep_dest, FsEntry};
use cpr::util::balanced_split;
use cpr::worker::{finish_task, CopyError};

#[test]
fn whole_pipeline_accounts_every_task() {
    let root = FsEntry::Dir {
        name: "root".to_string(),
        entries: vec![
            FsEntry::File { name: "a".to_string(), is_symlink: false, size: 10 },
            FsEntry::Dir {
                name: "nested".to_string(),
                entries: vec![
                    FsEntry::File { name: "b".to_string(), is_symlink: false, size: 20 },
                    FsEntry::File { name: "l".to_string(), is_symlink: true, size: 5 },
                ],
            },
            FsEntry::File { name: "c".to_string(), is_symlink: false, size: 30 },
        ],
    };
    let (dirs, manifest) = scan_source_prep_dest(&root, "/src", "/dst");
    assert_eq!(dirs, vec!["/dst", "/dst/nested"]);
    assert_eq!(manifest.len(), 4);

    let total = bytes_in_file_list(&manifest);
    assert_eq!(total, 65);

    let buckets = balanced_split(manifest, 3);
    assert_eq!(buckets.len(), 3);
    let spread: u64 = buckets.iter().map(|b| b.size).sum();
    assert_eq!(spread, total);

    // Each worker closes out its own bucket; the aggregator sees one event
    // per task and ends at exactly one hundred percent.
    let mut tracker = ProgressTracker::new(total);
    let mut errors: Vec<CopyError> = Vec::new();
    let mut event_count = 0;
    for bucket in &buckets {
        for task in &bucket.copy_info_list {
            let failure = if task.is_symlink {
                Some("unreadable link".to_string())
            } else {
                None
            };
            let (event, error) = finish_task(task, failure);
            tracker.on_event(&event);
            event_count += 1;
            if let Some(e) = error {
                errors.push(e);
            }
        }
    }
    assert_eq!(event_count, 4);
    assert_eq!(tracker.copied_bytes, total);
    assert_eq!(percent_string(tracker.percent_hundredths()), "100.00%");
    assert_eq!(errors.len(), 1);
    assert_eq!(errors[0].path, "/src/nested/l");
    assert_eq!(completion_message(total), "65 bytes copied.");
}
