//! The pure cores of the note mutation operations: building the header of a
//! new note and applying an update to an existing one.  The surrounding
//! program performs the file writes; every field value is decided here.

use vstd::prelude::*;

use crate::model::CreateNoteInput;
use crate::model::Note;
use crate::model::NoteFrontmatter;
use crate::model::UpdateNoteInput;
use crate::model::copy_opt_string;
use crate::model::copy_string;
use crate::model::copy_strings;
use crate::model::string_views;
use crate::naming::sanitize_tags;
use crate::naming::spec_sanitize_tags;
use crate::text::str_eq;

use vstd::string::StringExecFns;

verus! {

/// The header of a freshly created note: the given identity, both
/// timestamps set to now, the `todo` column unless another is named,
/// sanitized tags, and display order zero.
pub fn build_new_note(input: &CreateNoteInput, id: &str, now: i64) -> (fm: NoteFrontmatter)
    ensures
        fm@.id == id@,
        fm@.title == input.title@,
        fm@.created == now as int,
        fm@.modified == now as int,
        fm@.date == (match input.date {
            Option::Some(d) => Option::Some(d@),
            Option::None => Option::<Seq<char>>::None,
        }),
        fm@.column == (match input.column {
            Option::Some(c) => c@,
            Option::None => "todo"@,
        }),
        fm@.tags == spec_sanitize_tags(
            match input.tags {
                Option::Some(t) => string_views(t@),
                Option::None => Seq::empty(),
            },
        ),
        fm@.order == 0,
{
    let tags = match &input.tags {
        Option::Some(t) => sanitize_tags(t),
        Option::None => Vec::new(),
    };
    let column = match &input.column {
        Option::Some(c) => copy_string(c),
        Option::None => String::from_str("todo"),
    };
    NoteFrontmatter {
        id: id.to_owned(),
        title: copy_string(&input.title),
        created: now,
        modified: now,
        date: copy_opt_string(&input.date),
        column,
        tags,
        order: 0,
    }
}

/// Whether an update renames the note: it names a title and that title
/// differs from the current one.
pub fn title_changed(note: &Note, input: &UpdateNoteInput) -> (r: bool)
    ensures
        r == (match input.title {
            Option::Some(t) => t@ != note@.frontmatter.title,
            Option::None => false,
        }),
{
    match &input.title {
        Option::Some(t) => !str_eq(t.as_str(), note.frontmatter.title.as_str()),
        Option::None => false,
    }
}

/// Applies an update to a note: named fields take their new values (tags
/// sanitized), absent fields stay, the modified timestamp becomes now, and
/// identity, creation time and path are untouched.
pub fn apply_note_update(note: &Note, input: &UpdateNoteInput, now: i64) -> (r: Note)
    ensures
        r@.frontmatter.id == note@.frontmatter.id,
        r@.frontmatter.created == note@.frontmatter.created,
        r@.frontmatter.modified == now as int,
        r@.file_path == note@.file_path,
        r@.frontmatter.title == (match input.title {
            Option::Some(t) => t@,
            Option::None => note@.frontmatter.title,
        }),
        r@.frontmatter.date == (match input.date {
            Option::Some(d) => Option::Some(d@),
            Option::None => note@.frontmatter.date,
        }),
        r@.frontmatter.column == (match input.column {
            Option::Some(c) => c@,
            Option::None => note@.frontmatter.column,
        }),
        r@.frontmatter.tags == (match input.tags {
            Option::Some(t) => spec_sanitize_tags(string_views(t@)),
            Option::None => note@.frontmatter.tags,
        }),
        r@.frontmatter.order == (match input.order {
            Option::Some(o) => o as int,
            Option::None => note@.frontmatter.order,
        }),
        r@.content == (match input.content {
            Option::Some(c) => c@,
            Option::None => note@.content,
        }),
{
    let title = match &input.title {
        Option::Some(t) => copy_string(t),
        Option::None => copy_string(&note.frontmatter.title),
    };
    let date = match &input.date {
        Option::Some(d) => Option::Some(copy_string(d)),
        Option::None => copy_opt_string(&note.frontmatter.date),
    };
    let column = match &input.column {
        Option::Some(c) => copy_string(c),
        Option::None => copy_string(&note.frontmatter.column),
    };
    let tags = match &input.tags {
        Option::Some(t) => sanitize_tags(t),
        Option::None => copy_strings(&note.frontmatter.tags),
    };
    let order = match input.order {
        Option::Some(o) => o,
        Option::None => note.frontmatter.order,
    };
    let content = match &input.content {
        Option::Some(c) => copy_string(c),
        Option::None => copy_string(&note.content),
    };
    Note {
        frontmatter: NoteFrontmatter {
            id: copy_string(&note.frontmatter.id),
            title,
            created: note.frontmatter.created,
            modified: now,
            date,
            column,
            tags,
            order,
        },
        content,
        file_path: copy_string(&note.file_path),
    }
}

} // verus!
