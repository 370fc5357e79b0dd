//! The reconciliation driver: brings the cache back into agreement with the
//! note tree, either exhaustively (full resync) or from a batch of discrete
//! change notifications (incremental resync).
//!
//! The surrounding program walks directories, reads files and parses
//! headers; every decision — staleness, self-write suppression, path safety,
//! what enters and what leaves the cache, and the order of the results —
//! stands here.

use vstd::prelude::*;

use crate::cache::CacheDb;
use crate::cache::spec_needs_update;
use crate::cache::upserted_row;
use crate::hashing::compute_content_hash;
use crate::hashing::fingerprint_of;
use crate::model::CachedNote;
use crate::model::FileChangeEvent;
use crate::model::Folder;
use crate::model::IncrementalUpdateResult;
use crate::model::Note;
use crate::model::NoteWithTags;
use crate::model::copy_note;
use crate::model::copy_string;
use crate::model::string_views;
use crate::naming::attachments_suffix;
use crate::naming::is_note_path;
use crate::naming::path_is_note_file;
use crate::naming::validate_path_within_base;
use crate::naming::within_base;
use crate::tags::extract_inline_tags;
use crate::tags::has_tag;
use crate::tags::raw_tags;
use crate::tags::tags_strictly_sorted;
use crate::text::chars_of;
use crate::text::lex_le;
use crate::text::lemma_lex_refl;
use crate::text::lemma_lex_total;
use crate::text::lemma_lex_trans;
use crate::text::str_eq;
use crate::text::str_lex_le;
use crate::tracker::WriteTracker;
use crate::tracker::spec_is_recent;

use vstd::multiset::Multiset;
use vstd::string::StringSliceAdditionalSpecFns;

verus! {

broadcast use vstd::seq_lib::group_to_multiset_ensures;

/// What a full resync does with one note file.
pub enum ScanDecision {
    /// The cache row is current: serve it as it stands.
    UseCached(CachedNote),
    /// The file is unknown or its modification time changed: re-parse it.
    Reparse,
}

/// What an incremental resync does with one change notification.
#[derive(Debug, PartialEq, Eq, Structural)]
pub enum ChangeAction {
    /// The event was dropped: a self-write echo, an unknown kind, a missing
    /// or foreign file, or a file the cache already has.
    Ignored,
    /// The event removed the path from the cache.
    Removed,
    /// The file must be re-parsed and handed back.
    NeedsParse,
}

/// Facts about a changed path that only the filesystem can supply: whether
/// the file is present, its resolved path, and its modification time.
pub struct ChangeFacts {
    pub present: bool,
    pub canonical: Option<String>,
    pub mtime: Option<i64>,
}

pub struct ChangeFactsModel {
    pub present: bool,
    pub canonical: Option<Seq<char>>,
    pub mtime: Option<int>,
}

impl View for ChangeFacts {
    type V = ChangeFactsModel;

    open spec fn view(&self) -> ChangeFactsModel {
        ChangeFactsModel {
            present: self.present,
            canonical: match self.canonical {
                Option::Some(c) => Option::Some(c@),
                Option::None => Option::None,
            },
            mtime: match self.mtime {
                Option::Some(t) => Option::Some(t as int),
                Option::None => Option::None,
            },
        }
    }
}

/// A create or modify notification is acted on only for a present note file
/// whose resolved path lies within the notes root.
pub open spec fn update_eligible(f: ChangeFactsModel, path: Seq<char>, base: Seq<char>) -> bool {
    &&& f.present
    &&& is_note_path(path)
    &&& match f.canonical {
        Option::Some(c) => within_base(c, base),
        Option::None => false,
    }
    &&& f.mtime is Some
}

/// A directory name that the walk excludes wholesale: one that ends with the
/// attachments suffix.
pub open spec fn excluded_dir(name: Seq<char>) -> bool {
    name.len() >= attachments_suffix().len() && name.subrange(
        name.len() - attachments_suffix().len(),
        name.len() as int,
    ) == attachments_suffix()
}

/// Whether a directory name is excluded from traversal (its whole subtree
/// holds attachment payloads, not notes).
pub fn is_excluded_dir_name(name: &str) -> (r: bool)
    ensures
        r == excluded_dir(name@),
{
    let v = chars_of(name);
    let n = v.len();
    if n < 12 {
        proof {
            assert(attachments_suffix().len() == 12);
        }
        return false;
    }
    let s = n - 12;
    let r = v[s] == '.' && v[s + 1] == 'a' && v[s + 2] == 't' && v[s + 3] == 't' && v[s + 4] == 'a'
        && v[s + 5] == 'c' && v[s + 6] == 'h' && v[s + 7] == 'm' && v[s + 8] == 'e' && v[s + 9]
        == 'n' && v[s + 10] == 't' && v[s + 11] == 's';
    proof {
        assert(attachments_suffix().len() == 12);
        let tail = name@.subrange(name@.len() - 12, name@.len() as int);
        if r {
            assert(tail =~= attachments_suffix());
        } else {
            if tail =~= attachments_suffix() {
                assert(tail[0] == '.' && tail[1] == 'a' && tail[2] == 't' && tail[3] == 't'
                    && tail[4] == 'a' && tail[5] == 'c' && tail[6] == 'h' && tail[7] == 'm'
                    && tail[8] == 'e' && tail[9] == 'n' && tail[10] == 't' && tail[11] == 's');
                assert(false);
            }
        }
    }
    r
}

/// Decides what a full resync does with one note file, from the cache and
/// the file's current modification time: serve the cached row when it is
/// current, re-parse otherwise.
pub fn full_scan_step(cache: &CacheDb, file_path: &str, mtime: i64) -> (d: ScanDecision)
    requires
        cache.wf(),
    ensures
        match d {
            ScanDecision::UseCached(c) => !spec_needs_update(cache.model(), file_path@, mtime as int)
                && cache.model().contains_key(file_path@) && c@.note == cache.model()[
                file_path@
            ].note && c@.inline_tags == cache.model()[file_path@].inline_tags,
            ScanDecision::Reparse => spec_needs_update(cache.model(), file_path@, mtime as int),
        },
{
    if !cache.needs_update(file_path, mtime) {
        match cache.get_note(file_path) {
            Option::Some(c) => ScanDecision::UseCached(c),
            Option::None => ScanDecision::Reparse,
        }
    } else {
        ScanDecision::Reparse
    }
}

/// Parses' aftermath: extracts the body's tags, fingerprints the raw file
/// text, stores everything as one row, and hands the note back with its
/// extracted tags.
pub fn ingest_note(
    cache: &mut CacheDb,
    note: &Note,
    raw_content: &str,
    file_mtime: i64,
    now: i64,
) -> (r: NoteWithTags)
    requires
        old(cache).wf(),
    ensures
        final(cache).wf(),
        r@.note == note@,
        tags_strictly_sorted(r.inline_tags@),
        forall|t: Seq<char>|
            #[trigger] r@.inline_tags.contains(t) <==> raw_tags(note@.content).contains(t),
        final(cache).model().contains_key(note@.file_path),
        final(cache).model()[note@.file_path] == upserted_row(
            note@,
            fingerprint_of(raw_content.spec_bytes()),
            file_mtime as int,
            r@.inline_tags,
            now as int,
        ),
        forall|p: Seq<char>|
            p != note@.file_path ==> ((#[trigger] final(cache).model().contains_key(p)) <==> (old(
                cache,
            ).model().contains_key(p) && old(cache).model()[p].note.frontmatter.id
                != note@.frontmatter.id)),
        forall|p: Seq<char>|
            p != note@.file_path && final(cache).model().contains_key(p)
                ==> #[trigger] final(cache).model()[p] == old(cache).model()[p],
{
    let inline_tags = extract_inline_tags(note.content.as_str());
    let hash = compute_content_hash(raw_content);
    cache.upsert_note(note, hash.as_str(), file_mtime, &inline_tags, now);
    let r = NoteWithTags { note: copy_note(note), inline_tags };
    proof {
        assert forall|t: Seq<char>| #[trigger] r@.inline_tags.contains(t) implies raw_tags(
            note@.content,
        ).contains(t) by {
            let k = choose|k: int|
                0 <= k < r@.inline_tags.len() && (#[trigger] r@.inline_tags[k]) == t;
            assert(r.inline_tags@[k]@ == t);
            assert(has_tag(r.inline_tags@, t));
        }
        assert forall|t: Seq<char>| raw_tags(note@.content).contains(t) implies #[trigger] r@.inline_tags.contains(
            t,
        ) by {
            assert(has_tag(r.inline_tags@, t));
            let k = choose|k: int|
                0 <= k < r.inline_tags@.len() && (#[trigger] r.inline_tags@[k]@) == t;
            assert(r@.inline_tags[k] == t);
        }
    }
    r
}

/// Applies one change notification.  A self-write echo is dropped whole; a
/// removal deletes the cache row and records the path; a create or modify is
/// acted on only for a present note file inside the notes root whose
/// modification time no longer matches the cache, and then asks the caller
/// to re-parse; anything else is ignored.
pub fn step_change(
    cache: &mut CacheDb,
    tracker: &WriteTracker,
    now_ms: i64,
    canonical_base: &str,
    event: &FileChangeEvent,
    facts: &ChangeFacts,
    out: &mut IncrementalUpdateResult,
) -> (act: ChangeAction)
    requires
        old(cache).wf(),
        tracker.wf(),
        now_ms >= 0,
    ensures
        final(cache).wf(),
        spec_is_recent(tracker.model(), event@.file_path, now_ms as int) ==> act
            == ChangeAction::Ignored && final(cache).model() == old(cache).model() && final(out)@
            == old(out)@,
        (!spec_is_recent(tracker.model(), event@.file_path, now_ms as int) && event@.event_type
            == "remove"@) ==> act == ChangeAction::Removed && (forall|p: Seq<char>|
            (#[trigger] final(cache).model().contains_key(p)) <==> (old(
                cache,
            ).model().contains_key(p) && p != event@.file_path)) && (forall|p: Seq<char>|
            final(cache).model().contains_key(p) ==> (#[trigger] final(cache).model()[p]) == old(
                cache,
            ).model()[p]) && final(out)@.updated_notes == old(out)@.updated_notes && final(out)@.removed_paths == old(out)@.removed_paths.push(event@.file_path),
        (!spec_is_recent(tracker.model(), event@.file_path, now_ms as int) && event@.event_type
            != "remove"@ && (event@.event_type == "create"@ || event@.event_type == "modify"@))
            ==> final(cache).model() == old(
            cache,
        ).model() && final(out)@ == old(out)@ && (act == ChangeAction::NeedsParse <==> (
        update_eligible(facts@, event@.file_path, canonical_base@) && spec_needs_update(
            old(cache).model(),
            event@.file_path,
            facts@.mtime->0,
        ))) && (act == ChangeAction::NeedsParse || act == ChangeAction::Ignored),
        (!spec_is_recent(tracker.model(), event@.file_path, now_ms as int) && event@.event_type
            != "remove"@ && event@.event_type != "create"@ && event@.event_type != "modify"@)
            ==> act == ChangeAction::Ignored && final(cache).model() == old(cache).model() && final(out)@ == old(out)@,
{
    if tracker.is_recent_write(event.file_path.as_str(), now_ms) {
        return ChangeAction::Ignored;
    }
    if str_eq(event.event_type.as_str(), "remove") {
        cache.remove_note(event.file_path.as_str());
        let ghost old_removed = out.removed_paths@;
        out.removed_paths.push(copy_string(&event.file_path));
        proof {
            assert(string_views(out.removed_paths@) =~= string_views(old_removed).push(
                event@.file_path,
            ));
        }
        return ChangeAction::Removed;
    }
    if str_eq(event.event_type.as_str(), "create") || str_eq(event.event_type.as_str(), "modify") {
        if !facts.present {
            return ChangeAction::Ignored;
        }
        if !path_is_note_file(event.file_path.as_str()) {
            return ChangeAction::Ignored;
        }
        let within = match &facts.canonical {
            Option::Some(c) => validate_path_within_base(c.as_str(), canonical_base),
            Option::None => false,
        };
        if !within {
            return ChangeAction::Ignored;
        }
        let mtime = match facts.mtime {
            Option::Some(t) => t,
            Option::None => {
                return ChangeAction::Ignored;
            },
        };
        if cache.needs_update(event.file_path.as_str(), mtime) {
            return ChangeAction::NeedsParse;
        }
        return ChangeAction::Ignored;
    }
    ChangeAction::Ignored
}

/// Stores a re-parsed note after a change notification and appends it to the
/// batch result.
pub fn ingest_changed_note(
    cache: &mut CacheDb,
    note: &Note,
    raw_content: &str,
    file_mtime: i64,
    now: i64,
    out: &mut IncrementalUpdateResult,
)
    requires
        old(cache).wf(),
    ensures
        final(cache).wf(),
        final(out)@.removed_paths == old(out)@.removed_paths,
        final(out)@.updated_notes.len() == old(out)@.updated_notes.len() + 1,
        final(out)@.updated_notes.subrange(0, old(out)@.updated_notes.len() as int) == old(
            out,
        )@.updated_notes,
        final(out)@.updated_notes.last().note == note@,
        forall|t: Seq<char>|
            (#[trigger] final(out)@.updated_notes.last().inline_tags.contains(t)) <==> raw_tags(
                note@.content,
            ).contains(t),
        final(cache).model().contains_key(note@.file_path),
        final(cache).model()[note@.file_path] == upserted_row(
            note@,
            fingerprint_of(raw_content.spec_bytes()),
            file_mtime as int,
            final(out)@.updated_notes.last().inline_tags,
            now as int,
        ),
        forall|p: Seq<char>|
            p != note@.file_path ==> ((#[trigger] final(cache).model().contains_key(p)) <==> (old(
                cache,
            ).model().contains_key(p) && old(cache).model()[p].note.frontmatter.id
                != note@.frontmatter.id)),
        forall|p: Seq<char>|
            p != note@.file_path && final(cache).model().contains_key(p)
                ==> #[trigger] final(cache).model()[p] == old(cache).model()[p],
{
    let nwt = ingest_note(cache, note, raw_content, file_mtime, now);
    let ghost old_updated = out.updated_notes@;
    out.updated_notes.push(nwt);
    proof {
        assert(out.updated_notes@.map_values(|n: NoteWithTags| n@) =~= old_updated.map_values(
            |n: NoteWithTags| n@,
        ).push(out.updated_notes@.last()@));
        assert(final(out)@.updated_notes.subrange(0, old_updated.len() as int) =~= old_updated.map_values(
            |n: NoteWithTags| n@,
        ));
    }
}

spec fn notes_sorted_desc(ns: Seq<NoteWithTags>) -> bool {
    forall|a: int, b: int|
        0 <= a < b < ns.len() ==> (#[trigger] ns[a]@.note.frontmatter.modified) >= (
        #[trigger] ns[b]@.note.frontmatter.modified)
}

/// Sorts notes newest-modified first; the collection of notes is unchanged.
pub fn sort_notes_desc(v: Vec<NoteWithTags>) -> (r: Vec<NoteWithTags>)
    ensures
        r@.map_values(|n: NoteWithTags| n@).to_multiset() == v@.map_values(
            |n: NoteWithTags| n@,
        ).to_multiset(),
        forall|a: int, b: int|
            0 <= a < b < r@.len() ==> (#[trigger] r@[a]@.note.frontmatter.modified) >= (
            #[trigger] r@[b]@.note.frontmatter.modified),
{
    let ghost orig = v@.map_values(|n: NoteWithTags| n@);
    let mut work = v;
    let mut out: Vec<NoteWithTags> = Vec::new();
    while work.len() > 0
        invariant
            out@.map_values(|n: NoteWithTags| n@).to_multiset().add(
                work@.map_values(|n: NoteWithTags| n@).to_multiset(),
            ) =~= orig.to_multiset(),
            notes_sorted_desc(out@),
            forall|k: int, j: int|
                0 <= k < out@.len() && 0 <= j < work@.len() ==> (
                #[trigger] out@[k]@.note.frontmatter.modified) >= (
                #[trigger] work@[j]@.note.frontmatter.modified),
        decreases work@.len(),
    {
        let mut best: usize = 0;
        let mut j: usize = 1;
        while j < work.len()
            invariant
                work@.len() > 0,
                best < j <= work@.len() || (best == 0 && j <= work@.len()),
                best < work@.len(),
                forall|m: int|
                    0 <= m < j ==> (#[trigger] work@[m]@.note.frontmatter.modified)
                        <= work@[best as int]@.note.frontmatter.modified,
            decreases work@.len() - j,
        {
            if work[j].note.frontmatter.modified > work[best].note.frontmatter.modified {
                best = j;
            }
            j = j + 1;
        }
        let ghost old_work = work@;
        let ghost old_out = out@;
        let x = work.remove(best);
        out.push(x);
        proof {
            let f = |n: NoteWithTags| n@;
            old_work.remove_ensures(best as int);
            assert(work@.map_values(f) =~= old_work.map_values(f).remove(best as int));
            assert(out@.map_values(f) =~= old_out.map_values(f).push(x@));
            assert(old_work.map_values(f)[best as int] == x@);
            assert(work@.map_values(f).to_multiset() =~= old_work.map_values(
                f,
            ).to_multiset().remove(x@));
            assert(out@.map_values(f).to_multiset() =~= old_out.map_values(f).to_multiset().insert(
                x@,
            ));
            assert(old_work.map_values(f).to_multiset().count(x@) >= 1) by {
                assert(old_work.map_values(f).contains(x@));
            }
            assert(out@.map_values(f).to_multiset().add(work@.map_values(f).to_multiset())
                =~= old_out.map_values(f).to_multiset().add(old_work.map_values(f).to_multiset()));
            assert forall|k: int, j2: int|
                0 <= k < out@.len() && 0 <= j2 < work@.len() implies (
            #[trigger] out@[k]@.note.frontmatter.modified) >= (
            #[trigger] work@[j2]@.note.frontmatter.modified) by {
                if k < old_out.len() {
                    if j2 < best {
                        assert(work@[j2] == old_work[j2]);
                    } else {
                        assert(work@[j2] == old_work[j2 + 1]);
                    }
                } else {
                    assert(out@[k] == x);
                    if j2 < best {
                        assert(work@[j2] == old_work[j2]);
                    } else {
                        assert(work@[j2] == old_work[j2 + 1]);
                    }
                }
            }
        }
    }
    proof {
        assert(work@.map_values(|n: NoteWithTags| n@) =~= Seq::<
            crate::model::NoteWithTagsModel,
        >::empty());
        assert(work@.map_values(|n: NoteWithTags| n@).to_multiset() =~= Multiset::empty());
        assert(out@.map_values(|n: NoteWithTags| n@).to_multiset() =~= orig.to_multiset());
    }
    out
}

spec fn folders_sorted(fs: Seq<Folder>) -> bool {
    forall|a: int, b: int|
        0 <= a < b < fs.len() ==> lex_le(
            (#[trigger] fs[a])@.relative_path,
            (#[trigger] fs[b])@.relative_path,
        )
}

/// Sorts folders alphabetically by path relative to the root; the collection
/// of folders is unchanged.
pub fn sort_folders(v: Vec<Folder>) -> (r: Vec<Folder>)
    ensures
        r@.map_values(|f: Folder| f@).to_multiset() == v@.map_values(|f: Folder| f@).to_multiset(),
        forall|a: int, b: int|
            0 <= a < b < r@.len() ==> lex_le(
                (#[trigger] r@[a])@.relative_path,
                (#[trigger] r@[b])@.relative_path,
            ),
{
    let ghost orig = v@.map_values(|f: Folder| f@);
    let mut work = v;
    let mut out: Vec<Folder> = Vec::new();
    while work.len() > 0
        invariant
            out@.map_values(|f: Folder| f@).to_multiset().add(
                work@.map_values(|f: Folder| f@).to_multiset(),
            ) =~= orig.to_multiset(),
            folders_sorted(out@),
            forall|k: int, j: int|
                0 <= k < out@.len() && 0 <= j < work@.len() ==> lex_le(
                    (#[trigger] out@[k])@.relative_path,
                    (#[trigger] work@[j])@.relative_path,
                ),
        decreases work@.len(),
    {
        let mut best: usize = 0;
        let mut j: usize = 1;
        proof {
            lemma_lex_refl(work@[0]@.relative_path, 0);
        }
        while j < work.len()
            invariant
                work@.len() > 0,
                best < work@.len(),
                j <= work@.len(),
                forall|m: int|
                    0 <= m < j ==> lex_le(
                        work@[best as int]@.relative_path,
                        (#[trigger] work@[m])@.relative_path,
                    ),
            decreases work@.len() - j,
        {
            if str_lex_le(work[j].relative_path.as_str(), work[best].relative_path.as_str()) {
                proof {
                    lemma_lex_total(work@[j as int]@.relative_path, work@[best as int]@.relative_path, 0);
                    assert forall|m: int| 0 <= m < j + 1 implies lex_le(
                        work@[j as int]@.relative_path,
                        (#[trigger] work@[m])@.relative_path,
                    ) by {
                        if m == j {
                            lemma_lex_refl(work@[j as int]@.relative_path, 0);
                        }
                        if m < j {
                            lemma_lex_trans(
                                work@[j as int]@.relative_path,
                                work@[best as int]@.relative_path,
                                work@[m]@.relative_path,
                                0,
                            );
                        }
                    }
                }
                best = j;
            } else {
                proof {
                    lemma_lex_total(work@[best as int]@.relative_path, work@[j as int]@.relative_path, 0);
                }
            }
            j = j + 1;
        }
        let ghost old_work = work@;
        let ghost old_out = out@;
        let x = work.remove(best);
        out.push(x);
        proof {
            let f = |f: Folder| f@;
            old_work.remove_ensures(best as int);
            assert(work@.map_values(f) =~= old_work.map_values(f).remove(best as int));
            assert(out@.map_values(f) =~= old_out.map_values(f).push(x@));
            assert(old_work.map_values(f)[best as int] == x@);
            assert(work@.map_values(f).to_multiset() =~= old_work.map_values(
                f,
            ).to_multiset().remove(x@));
            assert(out@.map_values(f).to_multiset() =~= old_out.map_values(f).to_multiset().insert(
                x@,
            ));
            assert(old_work.map_values(f).to_multiset().count(x@) >= 1) by {
                assert(old_work.map_values(f).contains(x@));
            }
            assert(out@.map_values(f).to_multiset().add(work@.map_values(f).to_multiset())
                =~= old_out.map_values(f).to_multiset().add(old_work.map_values(f).to_multiset()));
            assert forall|k: int, j2: int|
                0 <= k < out@.len() && 0 <= j2 < work@.len() implies lex_le(
                (#[trigger] out@[k])@.relative_path,
                (#[trigger] work@[j2])@.relative_path,
            ) by {
                let wv = if j2 < best {
                    old_work[j2]
                } else {
                    old_work[j2 + 1]
                };
                assert(work@[j2] == wv);
                if k < old_out.len() {
                } else {
                    assert(out@[k] == x);
                }
            }
        }
    }
    proof {
        assert(work@.map_values(|f: Folder| f@) =~= Seq::<crate::model::FolderModel>::empty());
        assert(work@.map_values(|f: Folder| f@).to_multiset() =~= Multiset::empty());
        assert(out@.map_values(|f: Folder| f@).to_multiset() =~= orig.to_multiset());
    }
    out
}

/// Ends a full resync: prunes cache rows whose paths were not observed in
/// the walk, and orders the results — notes newest-modified first, folders
/// alphabetical by relative path.
pub fn finish_full_scan(
    cache: &mut CacheDb,
    seen_paths: &Vec<String>,
    notes: Vec<NoteWithTags>,
    folders: Vec<Folder>,
) -> (r: crate::model::NotesWithTagsAndFolders)
    requires
        old(cache).wf(),
    ensures
        final(cache).wf(),
        forall|p: Seq<char>|
            (#[trigger] final(cache).model().contains_key(p)) <==> (old(
                cache,
            ).model().contains_key(p) && string_views(seen_paths@).contains(p)),
        forall|p: Seq<char>|
            final(cache).model().contains_key(p) ==> (#[trigger] final(cache).model()[p]) == old(
                cache,
            ).model()[p],
        r.notes@.map_values(|n: NoteWithTags| n@).to_multiset() == notes@.map_values(
            |n: NoteWithTags| n@,
        ).to_multiset(),
        forall|a: int, b: int|
            0 <= a < b < r.notes@.len() ==> (#[trigger] r.notes@[a]@.note.frontmatter.modified)
                >= (#[trigger] r.notes@[b]@.note.frontmatter.modified),
        r.folders@.map_values(|f: Folder| f@).to_multiset() == folders@.map_values(
            |f: Folder| f@,
        ).to_multiset(),
        forall|a: int, b: int|
            0 <= a < b < r.folders@.len() ==> lex_le(
                (#[trigger] r.folders@[a])@.relative_path,
                (#[trigger] r.folders@[b])@.relative_path,
            ),
{
    cache.remove_notes_not_in(seen_paths);
    let notes = sort_notes_desc(notes);
    let folders = sort_folders(folders);
    crate::model::NotesWithTagsAndFolders { notes, folders }
}

spec fn plain_notes_sorted_desc(ns: Seq<Note>) -> bool {
    forall|a: int, b: int|
        0 <= a < b < ns.len() ==> (#[trigger] ns[a]@.frontmatter.modified) >= (
        #[trigger] ns[b]@.frontmatter.modified)
}

/// Sorts plain notes newest-modified first; the collection is unchanged.
fn sort_plain_notes_desc(v: Vec<Note>) -> (r: Vec<Note>)
    ensures
        r@.map_values(|n: Note| n@).to_multiset() == v@.map_values(|n: Note| n@).to_multiset(),
        plain_notes_sorted_desc(r@),
{
    let ghost orig = v@.map_values(|n: Note| n@);
    let mut work = v;
    let mut out: Vec<Note> = Vec::new();
    while work.len() > 0
        invariant
            out@.map_values(|n: Note| n@).to_multiset().add(
                work@.map_values(|n: Note| n@).to_multiset(),
            ) =~= orig.to_multiset(),
            plain_notes_sorted_desc(out@),
            forall|k: int, j: int|
                0 <= k < out@.len() && 0 <= j < work@.len() ==> (
                #[trigger] out@[k]@.frontmatter.modified) >= (
                #[trigger] work@[j]@.frontmatter.modified),
        decreases work@.len(),
    {
        let mut best: usize = 0;
        let mut j: usize = 1;
        while j < work.len()
            invariant
                work@.len() > 0,
                best < work@.len(),
                j <= work@.len(),
                forall|m: int|
                    0 <= m < j ==> (#[trigger] work@[m]@.frontmatter.modified)
                        <= work@[best as int]@.frontmatter.modified,
            decreases work@.len() - j,
        {
            if work[j].frontmatter.modified > work[best].frontmatter.modified {
                best = j;
            }
            j = j + 1;
        }
        let ghost old_work = work@;
        let ghost old_out = out@;
        let x = work.remove(best);
        out.push(x);
        proof {
            let f = |n: Note| n@;
            old_work.remove_ensures(best as int);
            assert(work@.map_values(f) =~= old_work.map_values(f).remove(best as int));
            assert(out@.map_values(f) =~= old_out.map_values(f).push(x@));
            assert(old_work.map_values(f)[best as int] == x@);
            assert(work@.map_values(f).to_multiset() =~= old_work.map_values(
                f,
            ).to_multiset().remove(x@));
            assert(out@.map_values(f).to_multiset() =~= old_out.map_values(f).to_multiset().insert(
                x@,
            ));
            assert(old_work.map_values(f).to_multiset().count(x@) >= 1) by {
                assert(old_work.map_values(f).contains(x@));
            }
            assert(out@.map_values(f).to_multiset().add(work@.map_values(f).to_multiset())
                =~= old_out.map_values(f).to_multiset().add(old_work.map_values(f).to_multiset()));
            assert forall|k: int, j2: int|
                0 <= k < out@.len() && 0 <= j2 < work@.len() implies (
            #[trigger] out@[k]@.frontmatter.modified) >= (
            #[trigger] work@[j2]@.frontmatter.modified) by {
                if j2 < best {
                    assert(work@[j2] == old_work[j2]);
                } else {
                    assert(work@[j2] == old_work[j2 + 1]);
                }
                if k >= old_out.len() {
                    assert(out@[k] == x);
                }
            }
        }
    }
    proof {
        assert(work@.map_values(|n: Note| n@) =~= Seq::<crate::model::NoteModel>::empty());
        assert(work@.map_values(|n: Note| n@).to_multiset() =~= Multiset::empty());
        assert(out@.map_values(|n: Note| n@).to_multiset() =~= orig.to_multiset());
    }
    out
}

/// Assembles a plain full listing: the walked notes newest-modified first
/// and the folders alphabetical by relative path, neither collection
/// otherwise changed.
pub fn assemble_listing(notes: Vec<Note>, folders: Vec<Folder>) -> (r: crate::model::NotesWithFolders)
    ensures
        r.notes@.map_values(|n: Note| n@).to_multiset() == notes@.map_values(
            |n: Note| n@,
        ).to_multiset(),
        forall|a: int, b: int|
            0 <= a < b < r.notes@.len() ==> (#[trigger] r.notes@[a]@.frontmatter.modified) >= (
            #[trigger] r.notes@[b]@.frontmatter.modified),
        r.folders@.map_values(|f: Folder| f@).to_multiset() == folders@.map_values(
            |f: Folder| f@,
        ).to_multiset(),
        forall|a: int, b: int|
            0 <= a < b < r.folders@.len() ==> lex_le(
                (#[trigger] r.folders@[a])@.relative_path,
                (#[trigger] r.folders@[b])@.relative_path,
            ),
{
    let notes = sort_plain_notes_desc(notes);
    let folders = sort_folders(folders);
    crate::model::NotesWithFolders { notes, folders }
}

} // verus!

