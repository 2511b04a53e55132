use cpr::progress::{completion_message, percent_string, ProgressEvent, ProgressTracker};

#[test]
fn percentage_reaches_exactly_one_hundred() {
    let mut t = ProgressTracker::new(100);
    t.on_event(&ProgressEvent { size: 30 });
    assert_eq!(t.percent_hundredths(), 3000);
    assert_eq!(percent_string(t.percent_hundredths()), "30.00%");
    t.on_event(&ProgressEvent { size: 25 });
    assert_eq!(t.percent_hundredths(), 5500);
    t.on_event(&ProgressEvent { size: 45 });
    assert_eq!(t.percent_hundredths(), 10000);
    assert_eq!(percent_string(t.percent_hundredths()), "100.00%");
    assert_eq!(t.events, 3);
}

#[test]
fn percentage_is_monotonic_in_arrival_order() {
    let mut t = ProgressTracker::new(1_000_000);
    let mut last = t.percent_hundredths();
    for size in [1u64, 999, 0, 500_000, 498_500, 0, 500] {
        t.on_event(&ProgressEvent { size });
        let now = t.percent_hundredths();
        assert!(now >= last);
        last = now;
    }
    assert_eq!(last, 10000);
}

#[test]
fn zero_total_reports_complete_without_dividing() {
    let t = ProgressTracker::new(0);
    assert_eq!(t.percent_hundredths(), 10000);
    assert_eq!(percent_string(t.percent_hundredths()), "100.00%");
    assert_eq!(completion_message(0), "0 bytes copied.");
    assert_eq!(t.events, 0);
}

#[test]
fn odd_ratios_truncate_to_hundredths() {
    let mut t = ProgressTracker::new(3);
    t.on_event(&ProgressEvent { size: 1 });
    // 1/3 is 33.33…%; the display truncates to hundredths.
    assert_eq!(t.percent_hundredths(), 3333);
    assert_eq!(percent_string(t.percent_hundredths()), "33.33%");
}

#[test]
fn completion_message_uses_human_readable_total() {
    assert_eq!(completion_message(999), "999 bytes copied.");
    assert_eq!(completion_message(12_345_678), "12.34 MB copied.");
}
