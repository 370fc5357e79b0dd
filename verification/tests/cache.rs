use noteban::cache::CacheDb;
use noteban::model::Note;
use noteban::model::NoteFrontmatter;

fn note(id: &str, path: &str, title: &str, modified: i64, tags: Vec<&str>) -> Note {
    Note {
        frontmatter: NoteFrontmatter {
            id: id.to_string(),
            title: title.to_string(),
            created: 100,
            modified,
            date: Some("2024-01-02".to_string()),
            column: "todo".to_string(),
            tags: tags.into_iter().map(|t| t.to_string()).collect(),
            order: 3,
        },
        content: "body #alpha".to_string(),
        file_path: path.to_string(),
    }
}

#[test]
fn test_upsert_get_round_trip() {
    let mut cache = CacheDb::new();
    let n = note("id-1", "/notes/a.md", "A", 500, vec!["Work", "personal", "Work"]);
    let inline = vec!["alpha".to_string(), "beta".to_string()];
    cache.upsert_note(&n, "deadbeef", 42, &inline, 900);

    let got = cache.get_note("/notes/a.md").expect("row must be present");
    assert_eq!(got.note.frontmatter.id, "id-1");
    assert_eq!(got.note.frontmatter.title, "A");
    assert_eq!(got.note.frontmatter.created, 100);
    assert_eq!(got.note.frontmatter.modified, 500);
    assert_eq!(got.note.frontmatter.date, Some("2024-01-02".to_string()));
    assert_eq!(got.note.frontmatter.column, "todo");
    assert_eq!(got.note.frontmatter.order, 3);
    assert_eq!(got.note.content, "body #alpha");
    assert_eq!(got.note.file_path, "/notes/a.md");
    // declared tags come back lowercased and deduplicated, distinct from the
    // extracted ones
    assert_eq!(got.note.frontmatter.tags, vec!["work", "personal"]);
    assert_eq!(got.inline_tags, vec!["alpha", "beta"]);
}

#[test]
fn test_needs_update_oracle() {
    let mut cache = CacheDb::new();
    // unknown paths always need an update
    assert!(cache.needs_update("/notes/a.md", 42));
    let n = note("id-1", "/notes/a.md", "A", 500, vec![]);
    cache.upsert_note(&n, "h", 42, &vec![], 900);
    // right after an upsert with the same time, no update is needed
    assert!(!cache.needs_update("/notes/a.md", 42));
    // any other time needs one, even an older one
    assert!(cache.needs_update("/notes/a.md", 43));
    assert!(cache.needs_update("/notes/a.md", 41));
}

#[test]
fn test_remove_then_get_absent() {
    let mut cache = CacheDb::new();
    let n = note("id-1", "/notes/a.md", "A", 500, vec![]);
    cache.upsert_note(&n, "h", 42, &vec![], 900);
    assert!(cache.get_note("/notes/a.md").is_some());
    cache.remove_note("/notes/a.md");
    assert!(cache.get_note("/notes/a.md").is_none());
    // removing an already-absent path raises no error and changes nothing
    cache.remove_note("/notes/a.md");
    assert!(cache.get_note("/notes/a.md").is_none());
}

#[test]
fn test_prune_drops_unobserved_paths() {
    let mut cache = CacheDb::new();
    cache.upsert_note(&note("id-a", "/n/a.md", "A", 1, vec![]), "h", 1, &vec![], 9);
    cache.upsert_note(&note("id-b", "/n/b.md", "B", 2, vec![]), "h", 2, &vec![], 9);
    cache.remove_notes_not_in(&vec!["/n/a.md".to_string()]);
    assert!(cache.get_note("/n/a.md").is_some());
    assert!(cache.get_note("/n/b.md").is_none());
}

#[test]
fn test_upsert_same_id_replaces_old_path() {
    let mut cache = CacheDb::new();
    cache.upsert_note(&note("id-a", "/n/old.md", "A", 1, vec![]), "h", 1, &vec![], 9);
    // the same note stored under a new path replaces the old row
    cache.upsert_note(&note("id-a", "/n/new.md", "A", 2, vec![]), "h", 2, &vec![], 9);
    assert!(cache.get_note("/n/old.md").is_none());
    assert!(cache.get_note("/n/new.md").is_some());
}

#[test]
fn test_get_all_notes_lists_every_row_once() {
    let mut cache = CacheDb::new();
    cache.upsert_note(&note("id-a", "/n/a.md", "A", 1, vec![]), "h", 1, &vec![], 9);
    cache.upsert_note(&note("id-b", "/n/b.md", "B", 2, vec![]), "h", 2, &vec![], 9);
    let all = cache.get_all_notes();
    let mut paths: Vec<String> = all.iter().map(|c| c.note.file_path.clone()).collect();
    paths.sort();
    assert_eq!(paths, vec!["/n/a.md", "/n/b.md"]);
}

#[test]
fn test_invalidate_all_empties_the_store() {
    let mut cache = CacheDb::new();
    cache.upsert_note(&note("id-a", "/n/a.md", "A", 1, vec![]), "h", 1, &vec![], 9);
    cache.invalidate_all();
    assert!(cache.get_note("/n/a.md").is_none());
    assert!(cache.get_all_notes().is_empty());
}
