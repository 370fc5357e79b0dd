use noteban::parse::frame_note;
use noteban::parse::split_frontmatter;

#[test]
fn test_split_frontmatter_parts() {
    let content = "---\ntitle: A\nid: x\n---\n\nBody text #tag\n";
    let (header, body) = split_frontmatter(content).unwrap();
    assert_eq!(header, "title: A\nid: x");
    assert_eq!(body, "Body text #tag");
}

#[test]
fn test_split_frontmatter_missing_header() {
    let err = split_frontmatter("no header here").unwrap_err();
    assert_eq!(err, "Invalid note format: missing frontmatter");
    let err2 = split_frontmatter("---\nunclosed").unwrap_err();
    assert_eq!(err2, "Invalid note format: missing frontmatter");
}

#[test]
fn test_frame_note_layout() {
    let framed = frame_note("title: A\n", "Body");
    assert_eq!(framed, "---\ntitle: A\n---\n\nBody");
}

#[test]
fn test_frame_then_split_round_trip() {
    let framed = frame_note("title: A\nid: x\n", "Body text\n\nwith #tags");
    let (header, body) = split_frontmatter(&framed).unwrap();
    assert_eq!(header, "title: A\nid: x");
    assert_eq!(body, "Body text\n\nwith #tags");
}

#[test]
fn test_body_may_hold_more_dashes() {
    let content = "---\nt: x\n---\n\na --- b --- c";
    let (_, body) = split_frontmatter(content).unwrap();
    assert_eq!(body, "a --- b --- c");
}
