use noteban::model::CreateNoteInput;
use noteban::model::Note;
use noteban::model::NoteFrontmatter;
use noteban::model::UpdateNoteInput;
use noteban::ops::apply_note_update;
use noteban::ops::build_new_note;
use noteban::ops::title_changed;

fn base_note() -> Note {
    Note {
        frontmatter: NoteFrontmatter {
            id: "id-1".to_string(),
            title: "Old title".to_string(),
            created: 100,
            modified: 200,
            date: None,
            column: "todo".to_string(),
            tags: vec!["keep".to_string()],
            order: 1,
        },
        content: "old body".to_string(),
        file_path: "/r/old-title.md".to_string(),
    }
}

#[test]
fn test_build_new_note_defaults() {
    let input = CreateNoteInput {
        notes_dir: "/r".to_string(),
        folder_path: None,
        title: "My Note".to_string(),
        content: None,
        date: None,
        column: None,
        tags: None,
    };
    let fm = build_new_note(&input, "id-9", 777);
    assert_eq!(fm.id, "id-9");
    assert_eq!(fm.title, "My Note");
    assert_eq!(fm.created, 777);
    assert_eq!(fm.modified, 777);
    assert_eq!(fm.date, None);
    assert_eq!(fm.column, "todo");
    assert!(fm.tags.is_empty());
    assert_eq!(fm.order, 0);
}

#[test]
fn test_build_new_note_sanitizes_tags() {
    let input = CreateNoteInput {
        notes_dir: "/r".to_string(),
        folder_path: Some("sub".to_string()),
        title: "T".to_string(),
        content: Some("c".to_string()),
        date: Some("2024-05-06".to_string()),
        column: Some("doing".to_string()),
        tags: Some(vec!["-work_".to_string(), "!!".to_string(), "ok".to_string()]),
    };
    let fm = build_new_note(&input, "id-9", 777);
    assert_eq!(fm.column, "doing");
    assert_eq!(fm.date, Some("2024-05-06".to_string()));
    assert_eq!(fm.tags, vec!["work", "ok"]);
}

#[test]
fn test_apply_note_update_merges_fields() {
    let n = base_note();
    let input = UpdateNoteInput {
        file_path: n.file_path.clone(),
        title: Some("New title".to_string()),
        content: None,
        date: Some("2024-01-01".to_string()),
        column: None,
        tags: None,
        order: Some(5),
    };
    let r = apply_note_update(&n, &input, 999);
    assert_eq!(r.frontmatter.id, "id-1");
    assert_eq!(r.frontmatter.created, 100);
    assert_eq!(r.frontmatter.modified, 999);
    assert_eq!(r.frontmatter.title, "New title");
    assert_eq!(r.frontmatter.date, Some("2024-01-01".to_string()));
    assert_eq!(r.frontmatter.column, "todo");
    assert_eq!(r.frontmatter.tags, vec!["keep"]);
    assert_eq!(r.frontmatter.order, 5);
    assert_eq!(r.content, "old body");
    assert_eq!(r.file_path, "/r/old-title.md");
}

#[test]
fn test_apply_note_update_replaces_tags_and_content() {
    let n = base_note();
    let input = UpdateNoteInput {
        file_path: n.file_path.clone(),
        title: None,
        content: Some("new body".to_string()),
        date: None,
        column: Some("done".to_string()),
        tags: Some(vec!["a b".to_string(), "--".to_string()]),
        order: None,
    };
    let r = apply_note_update(&n, &input, 999);
    assert_eq!(r.frontmatter.title, "Old title");
    assert_eq!(r.frontmatter.column, "done");
    assert_eq!(r.frontmatter.tags, vec!["ab"]);
    assert_eq!(r.content, "new body");
}

#[test]
fn test_title_changed_detection() {
    let n = base_note();
    let mut input = UpdateNoteInput {
        file_path: n.file_path.clone(),
        title: None,
        content: None,
        date: None,
        column: None,
        tags: None,
        order: None,
    };
    assert!(!title_changed(&n, &input));
    input.title = Some("Old title".to_string());
    assert!(!title_changed(&n, &input));
    input.title = Some("Other".to_string());
    assert!(title_changed(&n, &input));
}
