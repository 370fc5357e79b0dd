use noteban::tracker::WriteTracker;

#[test]
fn test_recent_write_within_window() {
    let mut tr = WriteTracker::new();
    tr.record_write("/n/a.md", 10_000);
    assert!(tr.is_recent_write("/n/a.md", 10_000));
    assert!(tr.is_recent_write("/n/a.md", 11_999));
}

#[test]
fn test_write_not_recent_after_window() {
    let mut tr = WriteTracker::new();
    tr.record_write("/n/a.md", 10_000);
    // exactly the suppression window is no longer recent
    assert!(!tr.is_recent_write("/n/a.md", 12_000));
    assert!(!tr.is_recent_write("/n/a.md", 20_000));
}

#[test]
fn test_unknown_path_never_recent() {
    let tr = WriteTracker::new();
    assert!(!tr.is_recent_write("/n/a.md", 10_000));
}

#[test]
fn test_rerecording_refreshes_the_window() {
    let mut tr = WriteTracker::new();
    tr.record_write("/n/a.md", 10_000);
    tr.record_write("/n/a.md", 13_000);
    assert!(tr.is_recent_write("/n/a.md", 14_500));
}

#[test]
fn test_other_paths_unaffected() {
    let mut tr = WriteTracker::new();
    tr.record_write("/n/a.md", 10_000);
    assert!(!tr.is_recent_write("/n/b.md", 10_000));
    tr.record_write("/n/b.md", 10_500);
    assert!(tr.is_recent_write("/n/a.md", 10_600));
    assert!(tr.is_recent_write("/n/b.md", 10_600));
}

#[test]
fn test_cap_drops_oldest_half() {
    let mut tr = WriteTracker::new();
    for i in 0..1000i64 {
        tr.record_write(&format!("/n/{}.md", i), 1000 + i);
    }
    // the table is full and every entry is still inside the cleanup window,
    // so recording one more keeps only the most recently written half
    tr.record_write("/n/extra.md", 2000);
    assert!(tr.is_recent_write("/n/extra.md", 2000));
    assert!(tr.is_recent_write("/n/999.md", 2000));
    assert!(!tr.is_recent_write("/n/0.md", 2000));
}

#[test]
fn test_entries_evicted_after_cleanup_window() {
    let mut tr = WriteTracker::new();
    tr.record_write("/n/a.md", 0);
    // a later write triggers housekeeping; the old entry is far beyond every
    // window by then
    tr.record_write("/n/b.md", 20_000);
    assert!(!tr.is_recent_write("/n/a.md", 20_100));
    assert!(tr.is_recent_write("/n/b.md", 20_100));
}
