use noteban::cache::CacheDb;
use noteban::model::FileChangeEvent;
use noteban::model::Folder;
use noteban::model::IncrementalUpdateResult;
use noteban::model::Note;
use noteban::model::NoteFrontmatter;
use noteban::reconcile::ChangeAction;
use noteban::reconcile::ChangeFacts;
use noteban::reconcile::ScanDecision;
use noteban::reconcile::assemble_listing;
use noteban::reconcile::finish_full_scan;
use noteban::reconcile::full_scan_step;
use noteban::reconcile::ingest_changed_note;
use noteban::reconcile::ingest_note;
use noteban::reconcile::is_excluded_dir_name;
use noteban::reconcile::step_change;
use noteban::tracker::WriteTracker;

fn note(id: &str, path: &str, modified: i64, content: &str) -> Note {
    Note {
        frontmatter: NoteFrontmatter {
            id: id.to_string(),
            title: id.to_uppercase(),
            created: 100,
            modified,
            date: None,
            column: "todo".to_string(),
            tags: vec![],
            order: 0,
        },
        content: content.to_string(),
        file_path: path.to_string(),
    }
}

fn empty_result() -> IncrementalUpdateResult {
    IncrementalUpdateResult { updated_notes: vec![], removed_paths: vec![] }
}

fn facts_inside(path: &str, mtime: i64) -> ChangeFacts {
    ChangeFacts { present: true, canonical: Some(path.to_string()), mtime: Some(mtime) }
}

#[test]
fn test_ingest_note_caches_and_reports_tags() {
    let mut cache = CacheDb::new();
    let n = note("id-a", "/root/a.md", 500, "text #beta and #Alpha");
    let r = ingest_note(&mut cache, &n, "raw file text", 42, 900);
    assert_eq!(r.note.file_path, "/root/a.md");
    assert_eq!(r.inline_tags, vec!["alpha", "beta"]);
    assert!(!cache.needs_update("/root/a.md", 42));
    let cached = cache.get_note("/root/a.md").unwrap();
    assert_eq!(cached.inline_tags, vec!["alpha", "beta"]);
}

#[test]
fn test_full_scan_step_serves_fresh_rows_and_asks_reparse() {
    let mut cache = CacheDb::new();
    let n = note("id-a", "/root/a.md", 500, "body");
    ingest_note(&mut cache, &n, "body", 42, 900);
    match full_scan_step(&cache, "/root/a.md", 42) {
        ScanDecision::UseCached(c) => assert_eq!(c.note.frontmatter.id, "id-a"),
        ScanDecision::Reparse => panic!("fresh row must be served from cache"),
    }
    match full_scan_step(&cache, "/root/a.md", 43) {
        ScanDecision::UseCached(_) => panic!("changed mtime must force a reparse"),
        ScanDecision::Reparse => {}
    }
    match full_scan_step(&cache, "/root/unknown.md", 1) {
        ScanDecision::UseCached(_) => panic!("unknown path must force a reparse"),
        ScanDecision::Reparse => {}
    }
}

#[test]
fn test_full_resync_prunes_deleted_files() {
    let mut cache = CacheDb::new();
    let a = note("id-a", "/root/a.md", 500, "a");
    let b = note("id-b", "/root/b.md", 600, "b");
    let ra = ingest_note(&mut cache, &a, "a", 1, 900);
    let rb = ingest_note(&mut cache, &b, "b", 2, 900);
    let all = vec!["/root/a.md".to_string(), "/root/b.md".to_string()];
    let r = finish_full_scan(&mut cache, &all, vec![ra, rb], vec![]);
    assert_eq!(r.notes.len(), 2);

    // the file behind B vanished: the next walk only observes A
    let ra2 = ingest_note(&mut cache, &a, "a", 1, 901);
    let only_a = vec!["/root/a.md".to_string()];
    let r2 = finish_full_scan(&mut cache, &only_a, vec![ra2], vec![]);
    assert_eq!(r2.notes.len(), 1);
    assert_eq!(r2.notes[0].note.file_path, "/root/a.md");
    assert!(cache.get_note("/root/b.md").is_none());
    assert!(cache.get_note("/root/a.md").is_some());
}

#[test]
fn test_self_write_suppression_window() {
    let mut cache = CacheDb::new();
    let mut tracker = WriteTracker::new();
    let mut out = empty_result();
    tracker.record_write("/root/p.md", 10_000);
    let ev = FileChangeEvent {
        event_type: "modify".to_string(),
        file_path: "/root/p.md".to_string(),
    };
    // the echo arrives right after the write: dropped
    let act = step_change(
        &mut cache,
        &tracker,
        10_100,
        "/root",
        &ev,
        &facts_inside("/root/p.md", 7),
        &mut out,
    );
    assert_eq!(act, ChangeAction::Ignored);
    assert!(out.updated_notes.is_empty());
    assert!(cache.get_note("/root/p.md").is_none());

    // the same event more than the suppression window later: processed
    let act2 = step_change(
        &mut cache,
        &tracker,
        12_500,
        "/root",
        &ev,
        &facts_inside("/root/p.md", 7),
        &mut out,
    );
    assert_eq!(act2, ChangeAction::NeedsParse);
    let n = note("id-p", "/root/p.md", 500, "text");
    ingest_changed_note(&mut cache, &n, "text", 7, 900, &mut out);
    assert_eq!(out.updated_notes.len(), 1);
    assert_eq!(out.updated_notes[0].note.file_path, "/root/p.md");
}

#[test]
fn test_remove_event_drops_cache_row() {
    let mut cache = CacheDb::new();
    let tracker = WriteTracker::new();
    let mut out = empty_result();
    let n = note("id-a", "/root/a.md", 500, "a");
    ingest_note(&mut cache, &n, "a", 1, 900);
    let ev = FileChangeEvent {
        event_type: "remove".to_string(),
        file_path: "/root/a.md".to_string(),
    };
    let facts = ChangeFacts { present: false, canonical: None, mtime: None };
    let act = step_change(&mut cache, &tracker, 10_000, "/root", &ev, &facts, &mut out);
    assert_eq!(act, ChangeAction::Removed);
    assert!(cache.get_note("/root/a.md").is_none());
    assert_eq!(out.removed_paths, vec!["/root/a.md"]);
    assert!(out.updated_notes.is_empty());
}

#[test]
fn test_path_outside_root_is_dropped() {
    let mut cache = CacheDb::new();
    let tracker = WriteTracker::new();
    let mut out = empty_result();
    let ev = FileChangeEvent {
        event_type: "create".to_string(),
        file_path: "/root/evil.md".to_string(),
    };
    // the watcher's path resolves, through a symlink, outside the notes root
    let facts = ChangeFacts {
        present: true,
        canonical: Some("/elsewhere/evil.md".to_string()),
        mtime: Some(5),
    };
    let act = step_change(&mut cache, &tracker, 10_000, "/root", &ev, &facts, &mut out);
    assert_eq!(act, ChangeAction::Ignored);
    assert!(out.updated_notes.is_empty());
    assert!(cache.get_note("/root/evil.md").is_none());
    assert!(cache.get_all_notes().is_empty());
}

#[test]
fn test_fresh_file_event_is_skipped() {
    let mut cache = CacheDb::new();
    let tracker = WriteTracker::new();
    let mut out = empty_result();
    let n = note("id-a", "/root/a.md", 500, "a");
    ingest_note(&mut cache, &n, "a", 7, 900);
    let ev = FileChangeEvent {
        event_type: "modify".to_string(),
        file_path: "/root/a.md".to_string(),
    };
    // mtime still matches the cache: nothing to report
    let act = step_change(
        &mut cache,
        &tracker,
        10_000,
        "/root",
        &ev,
        &facts_inside("/root/a.md", 7),
        &mut out,
    );
    assert_eq!(act, ChangeAction::Ignored);
    assert!(out.updated_notes.is_empty());
}

#[test]
fn test_unknown_event_kind_is_ignored() {
    let mut cache = CacheDb::new();
    let tracker = WriteTracker::new();
    let mut out = empty_result();
    let ev = FileChangeEvent {
        event_type: "rescan".to_string(),
        file_path: "/root/a.md".to_string(),
    };
    let facts = facts_inside("/root/a.md", 7);
    let act = step_change(&mut cache, &tracker, 10_000, "/root", &ev, &facts, &mut out);
    assert_eq!(act, ChangeAction::Ignored);
    assert!(out.updated_notes.is_empty());
    assert!(out.removed_paths.is_empty());
}

#[test]
fn test_listing_orders_notes_and_folders() {
    let notes = vec![
        note("id-a", "/r/a.md", 100, "a"),
        note("id-b", "/r/b.md", 300, "b"),
        note("id-c", "/r/c.md", 200, "c"),
    ];
    let folders = vec![
        Folder { path: "/r/z".to_string(), name: "z".to_string(), relative_path: "z".to_string() },
        Folder { path: "/r/a".to_string(), name: "a".to_string(), relative_path: "a".to_string() },
        Folder {
            path: "/r/a/m".to_string(),
            name: "m".to_string(),
            relative_path: "a/m".to_string(),
        },
    ];
    let r = assemble_listing(notes, folders);
    let order: Vec<i64> = r.notes.iter().map(|n| n.frontmatter.modified).collect();
    assert_eq!(order, vec![300, 200, 100]);
    let rels: Vec<String> = r.folders.iter().map(|f| f.relative_path.clone()).collect();
    assert_eq!(rels, vec!["a", "a/m", "z"]);
}

#[test]
fn test_attachments_directories_are_excluded() {
    assert!(is_excluded_dir_name("draft.attachments"));
    assert!(is_excluded_dir_name(".attachments"));
    assert!(!is_excluded_dir_name("attachments"));
    assert!(!is_excluded_dir_name("notes"));
    assert!(!is_excluded_dir_name("attachments.old"));
}
