//! The data model: notes, folders, change events and their spec-level views.
//!
//! Timestamps are plain integers (Unix seconds for note metadata and file
//! modification times), so every field a contract speaks of is a mathematical
//! value.  Each executable type has a view struct over `Seq`, `int` and
//! `Option` that the contracts are stated with.

use vstd::prelude::*;

verus! {

/// The views of a vector of strings.
pub open spec fn string_views(v: Seq<String>) -> Seq<Seq<char>> {
    v.map_values(|s: String| s@)
}

/// Structured header of a note: identity, display metadata and declared tags.
#[derive(Debug)]
pub struct NoteFrontmatter {
    pub id: String,
    pub title: String,
    pub created: i64,
    pub modified: i64,
    pub date: Option<String>,
    pub column: String,
    pub tags: Vec<String>,
    pub order: i32,
}

pub struct FrontmatterModel {
    pub id: Seq<char>,
    pub title: Seq<char>,
    pub created: int,
    pub modified: int,
    pub date: Option<Seq<char>>,
    pub column: Seq<char>,
    pub tags: Seq<Seq<char>>,
    pub order: int,
}

impl View for NoteFrontmatter {
    type V = FrontmatterModel;

    open spec fn view(&self) -> FrontmatterModel {
        FrontmatterModel {
            id: self.id@,
            title: self.title@,
            created: self.created as int,
            modified: self.modified as int,
            date: match self.date {
                Option::Some(d) => Option::Some(d@),
                Option::None => Option::None,
            },
            column: self.column@,
            tags: string_views(self.tags@),
            order: self.order as int,
        }
    }
}

/// A note: header, body text and the path of its file.
#[derive(Debug)]
pub struct Note {
    pub frontmatter: NoteFrontmatter,
    pub content: String,
    pub file_path: String,
}

pub struct NoteModel {
    pub frontmatter: FrontmatterModel,
    pub content: Seq<char>,
    pub file_path: Seq<char>,
}

impl View for Note {
    type V = NoteModel;

    open spec fn view(&self) -> NoteModel {
        NoteModel { frontmatter: self.frontmatter@, content: self.content@, file_path: self.file_path@ }
    }
}

/// A directory below the notes root.
#[derive(Debug)]
pub struct Folder {
    pub path: String,
    pub name: String,
    pub relative_path: String,
}

pub struct FolderModel {
    pub path: Seq<char>,
    pub name: Seq<char>,
    pub relative_path: Seq<char>,
}

impl View for Folder {
    type V = FolderModel;

    open spec fn view(&self) -> FolderModel {
        FolderModel { path: self.path@, name: self.name@, relative_path: self.relative_path@ }
    }
}

/// Result of a plain full listing: notes and folders.
#[derive(Debug)]
pub struct NotesWithFolders {
    pub notes: Vec<Note>,
    pub folders: Vec<Folder>,
}

/// What a caller supplies to create a note.
#[derive(Debug)]
pub struct CreateNoteInput {
    pub notes_dir: String,
    pub folder_path: Option<String>,
    pub title: String,
    pub content: Option<String>,
    pub date: Option<String>,
    pub column: Option<String>,
    pub tags: Option<Vec<String>>,
}

/// What a caller supplies to update a note; absent fields stay unchanged.
#[derive(Debug)]
pub struct UpdateNoteInput {
    pub file_path: String,
    pub title: Option<String>,
    pub content: Option<String>,
    pub date: Option<String>,
    pub column: Option<String>,
    pub tags: Option<Vec<String>>,
    pub order: Option<i32>,
}

/// A note together with the tags extracted from its body.
#[derive(Debug)]
pub struct NoteWithTags {
    pub note: Note,
    pub inline_tags: Vec<String>,
}

pub struct NoteWithTagsModel {
    pub note: NoteModel,
    pub inline_tags: Seq<Seq<char>>,
}

impl View for NoteWithTags {
    type V = NoteWithTagsModel;

    open spec fn view(&self) -> NoteWithTagsModel {
        NoteWithTagsModel { note: self.note@, inline_tags: string_views(self.inline_tags@) }
    }
}

/// Result of a cached full listing.
#[derive(Debug)]
pub struct NotesWithTagsAndFolders {
    pub notes: Vec<NoteWithTags>,
    pub folders: Vec<Folder>,
}

/// One filesystem change notification, as the watcher reports it.
#[derive(Debug)]
pub struct FileChangeEvent {
    pub event_type: String,
    pub file_path: String,
}

pub struct FileChangeEventModel {
    pub event_type: Seq<char>,
    pub file_path: Seq<char>,
}

impl View for FileChangeEvent {
    type V = FileChangeEventModel;

    open spec fn view(&self) -> FileChangeEventModel {
        FileChangeEventModel { event_type: self.event_type@, file_path: self.file_path@ }
    }
}

/// What an incremental resync hands back: re-parsed notes and removed paths.
#[derive(Debug)]
pub struct IncrementalUpdateResult {
    pub updated_notes: Vec<NoteWithTags>,
    pub removed_paths: Vec<String>,
}

pub struct IncrementalUpdateResultModel {
    pub updated_notes: Seq<NoteWithTagsModel>,
    pub removed_paths: Seq<Seq<char>>,
}

impl View for IncrementalUpdateResult {
    type V = IncrementalUpdateResultModel;

    open spec fn view(&self) -> IncrementalUpdateResultModel {
        IncrementalUpdateResultModel {
            updated_notes: self.updated_notes@.map_values(|n: NoteWithTags| n@),
            removed_paths: string_views(self.removed_paths@),
        }
    }
}

/// A cached note as the store hands it out: the note with its declared tags
/// restored, plus the extracted tags.
#[derive(Debug)]
pub struct CachedNote {
    pub note: Note,
    pub inline_tags: Vec<String>,
}

pub struct CachedNoteModel {
    pub note: NoteModel,
    pub inline_tags: Seq<Seq<char>>,
}

impl View for CachedNote {
    type V = CachedNoteModel;

    open spec fn view(&self) -> CachedNoteModel {
        CachedNoteModel { note: self.note@, inline_tags: string_views(self.inline_tags@) }
    }
}

/// Copies a string; the copy has the same characters.
pub fn copy_string(s: &String) -> (r: String)
    ensures
        r@ == s@,
{
    s.clone()
}

/// Copies a vector of strings; the copy has the same views elementwise.
pub fn copy_strings(v: &Vec<String>) -> (r: Vec<String>)
    ensures
        string_views(r@) == string_views(v@),
        r@.len() == v@.len(),
{
    let mut r: Vec<String> = Vec::new();
    let mut i: usize = 0;
    while i < v.len()
        invariant
            i <= v@.len(),
            r@.len() == i,
            forall|j: int| 0 <= j < i ==> #[trigger] r@[j]@ == v@[j]@,
        decreases v@.len() - i,
    {
        r.push(v[i].clone());
        i = i + 1;
    }
    proof {
        assert(string_views(r@) =~= string_views(v@));
    }
    r
}

/// Copies an optional string.
pub fn copy_opt_string(s: &Option<String>) -> (r: Option<String>)
    ensures
        match (r, s) {
            (Option::Some(a), Option::Some(b)) => a@ == b@,
            (Option::None, Option::None) => true,
            _ => false,
        },
{
    match s {
        Option::Some(x) => Option::Some(x.clone()),
        Option::None => Option::None,
    }
}

/// Copies a note; the copy has the same view.
pub fn copy_note(n: &Note) -> (r: Note)
    ensures
        r@ == n@,
{
    let r = Note {
        frontmatter: NoteFrontmatter {
            id: n.frontmatter.id.clone(),
            title: n.frontmatter.title.clone(),
            created: n.frontmatter.created,
            modified: n.frontmatter.modified,
            date: copy_opt_string(&n.frontmatter.date),
            column: n.frontmatter.column.clone(),
            tags: copy_strings(&n.frontmatter.tags),
            order: n.frontmatter.order,
        },
        content: n.content.clone(),
        file_path: n.file_path.clone(),
    };
    r
}

} // verus!
