use noteban::tags::extract_inline_tags;

#[test]
fn test_extract_inline_tags() {
    let content = "Hello #world this is a #test-tag and #another_tag";
    let tags = extract_inline_tags(content);
    assert_eq!(tags, vec!["another_tag", "test-tag", "world"]);
}

#[test]
fn test_ignores_code_blocks() {
    let content = "Regular #tag\n```\n#ignored\n```\nAnother #visible";
    let tags = extract_inline_tags(content);
    assert_eq!(tags, vec!["tag", "visible"]);
}

#[test]
fn test_ignores_inline_code() {
    let content = "A #real tag and `#fake` tag";
    let tags = extract_inline_tags(content);
    assert_eq!(tags, vec!["real"]);
}

#[test]
fn test_tag_must_start_with_letter() {
    let content = "#valid #123invalid #_invalid";
    let tags = extract_inline_tags(content);
    assert_eq!(tags, vec!["valid"]);
}

#[test]
fn test_empty_body_has_no_tags() {
    let tags = extract_inline_tags("");
    assert!(tags.is_empty());
}

#[test]
fn test_tags_lowercased_and_deduplicated() {
    let tags = extract_inline_tags("#Work #work #WORK and #Home");
    assert_eq!(tags, vec!["home", "work"]);
}

#[test]
fn test_tags_sorted_ascending() {
    let tags = extract_inline_tags("#zebra #alpha #middle");
    assert_eq!(tags, vec!["alpha", "middle", "zebra"]);
}

#[test]
fn test_unclosed_fence_keeps_text() {
    let tags = extract_inline_tags("#before\n```\n#inside still counts without a closing fence");
    assert_eq!(tags, vec!["before", "inside"]);
}

#[test]
fn test_inline_code_does_not_span_lines() {
    let tags = extract_inline_tags("a `#one\n#two` b");
    assert_eq!(tags, vec!["one", "two"]);
}

#[test]
fn test_tag_not_inside_word() {
    let tags = extract_inline_tags("price#notatag but x #yes");
    assert_eq!(tags, vec!["yes"]);
}
