use noteban::cache::CacheDb;
use noteban::model::Note;
use noteban::model::NoteFrontmatter;
use noteban::naming::attachments_name;
use noteban::naming::candidate_filename;
use noteban::naming::choose_free_filename;
use noteban::naming::file_name;
use noteban::naming::file_stem;
use noteban::naming::sanitize_tag;
use noteban::naming::sanitize_tags;
use noteban::naming::slugify;
use noteban::naming::validate_path_within_base;

#[test]
fn test_slugify_basic() {
    assert_eq!(slugify("Draft"), "draft");
    assert_eq!(slugify("Hello World!"), "hello-world");
    assert_eq!(slugify("  Already--slugged  "), "already-slugged");
    assert_eq!(slugify("2024 Plans"), "2024-plans");
    assert_eq!(slugify("!!!"), "");
}

#[test]
fn test_rename_collision_yields_numbered_names() {
    // creating a note titled "Draft" twice in the same folder
    let slug = slugify("Draft");
    let taken: Vec<String> = vec![];
    let first = choose_free_filename(&slug, &taken);
    assert_eq!(first, "draft.md");
    let taken = vec![first.clone()];
    let second = choose_free_filename(&slug, &taken);
    assert_eq!(second, "draft-1.md");

    // both names are independently addressable in the cache
    let mut cache = CacheDb::new();
    for (id, name) in [("id-1", &first), ("id-2", &second)] {
        let n = Note {
            frontmatter: NoteFrontmatter {
                id: id.to_string(),
                title: "Draft".to_string(),
                created: 1,
                modified: 1,
                date: None,
                column: "todo".to_string(),
                tags: vec![],
                order: 0,
            },
            content: String::new(),
            file_path: format!("/r/{}", name),
        };
        cache.upsert_note(&n, "h", 1, &vec![], 9);
    }
    assert_eq!(cache.get_note("/r/draft.md").unwrap().note.frontmatter.id, "id-1");
    assert_eq!(cache.get_note("/r/draft-1.md").unwrap().note.frontmatter.id, "id-2");
}

#[test]
fn test_candidate_names_count_upward() {
    assert_eq!(candidate_filename("note", 0), "note.md");
    assert_eq!(candidate_filename("note", 1), "note-1.md");
    assert_eq!(candidate_filename("note", 12), "note-12.md");
    let taken = vec!["note.md".to_string(), "note-1.md".to_string(), "note-2.md".to_string()];
    assert_eq!(choose_free_filename("note", &taken), "note-3.md");
}

#[test]
fn test_sanitize_tag_rules() {
    assert_eq!(sanitize_tag("Work"), "Work");
    assert_eq!(sanitize_tag("-work_"), "work");
    assert_eq!(sanitize_tag("a b!c"), "abc");
    assert_eq!(sanitize_tag("area/sub"), "area/sub");
    assert_eq!(sanitize_tag("--__"), "");
}

#[test]
fn test_sanitize_tags_drops_empty() {
    let tags = vec!["ok".to_string(), "--".to_string(), "x y".to_string()];
    assert_eq!(sanitize_tags(&tags), vec!["ok", "xy"]);
}

#[test]
fn test_attachments_name_builds_suffix() {
    assert_eq!(attachments_name("draft"), "draft.attachments");
}

#[test]
fn test_path_components() {
    assert_eq!(file_name("/a/b/c.md"), "c.md");
    assert_eq!(file_name("c.md"), "c.md");
    assert_eq!(file_stem("c.md"), "c");
    assert_eq!(file_stem("a.b.md"), "a.b");
    assert_eq!(file_stem(".hidden"), ".hidden");
    assert_eq!(file_stem("plain"), "plain");
}

#[test]
fn test_path_safety_check() {
    assert!(validate_path_within_base("/root/notes/a.md", "/root/notes"));
    assert!(validate_path_within_base("/root/notes", "/root/notes"));
    assert!(validate_path_within_base("/root/notes/sub/a.md", "/root/notes"));
    assert!(!validate_path_within_base("/root/notes2/a.md", "/root/notes"));
    assert!(!validate_path_within_base("/elsewhere/a.md", "/root/notes"));
    assert!(!validate_path_within_base("/root", "/root/notes"));
    assert!(validate_path_within_base("/a.md", "/"));
}
