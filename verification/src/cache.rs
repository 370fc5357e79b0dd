//! The note cache store: one row per known note file, keyed by file path,
//! with the note's fields, both tag provenances, the content fingerprint and
//! the recorded filesystem modification time.
//!
//! The store is modelled as a map from path to row.  Paths are unique among
//! live rows, and so are note identifiers: storing a note removes any older
//! row with the same path or the same identifier, as replacing by either
//! unique key does.  Tag names are canonicalized to lowercase before storage
//! and deduplicated, keeping first occurrences.
//!
//! The store is a disposable accelerator, not a source of truth: every
//! operation is total, and a caller that finds nothing here re-parses from
//! disk.

use vstd::prelude::*;

use crate::model::CachedNote;
use crate::model::CachedNoteModel;
use crate::model::FrontmatterModel;
use crate::model::Note;
use crate::model::NoteFrontmatter;
use crate::model::NoteModel;
use crate::model::copy_note;
use crate::model::copy_opt_string;
use crate::model::copy_strings;
use crate::model::string_views;
use crate::text::lower_of;
use crate::text::lowercase;
use crate::text::str_eq;
use crate::text::string_eq;

verus! {

/// Tag canonicalization: every name lowercased, duplicates removed, first
/// occurrences kept in order.
pub open spec fn dedup_first(ts: Seq<Seq<char>>) -> Seq<Seq<char>>
    decreases ts.len(),
{
    if ts.len() == 0 {
        Seq::empty()
    } else {
        let rest = dedup_first(ts.drop_last());
        if rest.contains(ts.last()) {
            rest
        } else {
            rest.push(ts.last())
        }
    }
}

/// The stored form of a tag list.
pub open spec fn canon_tags(ts: Seq<Seq<char>>) -> Seq<Seq<char>> {
    dedup_first(ts.map_values(|t: Seq<char>| lower_of(t)))
}

/// Whether `s` occurs among the views of the strings in `v`.
pub fn contains_string(v: &Vec<String>, s: &String) -> (r: bool)
    ensures
        r == string_views(v@).contains(s@),
{
    let mut i: usize = 0;
    while i < v.len()
        invariant
            i <= v@.len(),
            forall|j: int| 0 <= j < i ==> v@[j]@ != s@,
        decreases v@.len() - i,
    {
        if string_eq(&v[i], s) {
            proof {
                assert(string_views(v@)[i as int] == s@);
            }
            return true;
        }
        i = i + 1;
    }
    proof {
        assert forall|j: int| 0 <= j < string_views(v@).len() implies string_views(v@)[j]
            != s@ by {
            assert(v@[j]@ != s@);
        }
    }
    false
}

/// Lowercases a tag list and removes duplicates, keeping first occurrences.
pub fn canonical_tags(v: &Vec<String>) -> (r: Vec<String>)
    ensures
        string_views(r@) == canon_tags(string_views(v@)),
{
    let mut r: Vec<String> = Vec::new();
    let mut i: usize = 0;
    while i < v.len()
        invariant
            i <= v@.len(),
            string_views(r@) == dedup_first(
                string_views(v@.subrange(0, i as int)).map_values(|t: Seq<char>| lower_of(t)),
            ),
        decreases v@.len() - i,
    {
        let low = lowercase(v[i].as_str());
        let ghost prev = string_views(v@.subrange(0, i as int)).map_values(
            |t: Seq<char>| lower_of(t),
        );
        let ghost cur = string_views(v@.subrange(0, i + 1)).map_values(|t: Seq<char>| lower_of(t));
        proof {
            assert(cur.drop_last() =~= prev);
            assert(cur.last() == lower_of(v@[i as int]@));
        }
        if !contains_string(&r, &low) {
            r.push(low);
            proof {
                assert(string_views(r@) =~= dedup_first(prev).push(lower_of(v@[i as int]@)));
            }
        }
        i = i + 1;
    }
    proof {
        assert(v@.subrange(0, v@.len() as int) =~= v@);
    }
    r
}

/// One cache row: the note, both tag lists, the fingerprint, the file's
/// modification time and the moment the row was written.
struct CacheRow {
    note: Note,
    inline_tags: Vec<String>,
    content_hash: String,
    file_mtime: i64,
    cached_at: i64,
}

/// Spec-level form of a cache row.
pub struct RowModel {
    pub note: NoteModel,
    pub inline_tags: Seq<Seq<char>>,
    pub content_hash: Seq<char>,
    pub file_mtime: int,
    pub cached_at: int,
}

impl View for CacheRow {
    type V = RowModel;

    closed spec fn view(&self) -> RowModel {
        RowModel {
            note: self.note@,
            inline_tags: string_views(self.inline_tags@),
            content_hash: self.content_hash@,
            file_mtime: self.file_mtime as int,
            cached_at: self.cached_at as int,
        }
    }
}

/// The row a store holds after an upsert: the note with canonicalized
/// declared tags, the canonicalized extracted tags, and the bookkeeping
/// fields.
pub open spec fn upserted_row(
    note: NoteModel,
    content_hash: Seq<char>,
    file_mtime: int,
    inline_tags: Seq<Seq<char>>,
    now: int,
) -> RowModel {
    RowModel {
        note: NoteModel {
            frontmatter: FrontmatterModel {
                id: note.frontmatter.id,
                title: note.frontmatter.title,
                created: note.frontmatter.created,
                modified: note.frontmatter.modified,
                date: note.frontmatter.date,
                column: note.frontmatter.column,
                tags: canon_tags(note.frontmatter.tags),
                order: note.frontmatter.order,
            },
            content: note.content,
            file_path: note.file_path,
        },
        inline_tags: canon_tags(inline_tags),
        content_hash: content_hash,
        file_mtime: file_mtime,
        cached_at: now,
    }
}

/// A path must be re-parsed when the store does not know it or knows it with
/// a different modification time.  Inequality, not ordering: a time moved
/// backwards still counts as changed.
pub open spec fn spec_needs_update(m: Map<Seq<char>, RowModel>, path: Seq<char>, mtime: int) -> bool {
    !m.contains_key(path) || m[path].file_mtime != mtime
}

spec fn distinct_paths(rows: Seq<CacheRow>) -> bool {
    forall|i: int, j: int|
        0 <= i < j < rows.len() ==> (#[trigger] rows[i].note.file_path@) != (
        #[trigger] rows[j].note.file_path@)
}

spec fn distinct_ids(rows: Seq<CacheRow>) -> bool {
    forall|i: int, j: int|
        0 <= i < j < rows.len() ==> (#[trigger] rows[i].note.frontmatter.id@) != (
        #[trigger] rows[j].note.frontmatter.id@)
}

spec fn row_map(rows: Seq<CacheRow>) -> Map<Seq<char>, RowModel>
    decreases rows.len(),
{
    if rows.len() == 0 {
        Map::empty()
    } else {
        row_map(rows.drop_last()).insert(rows.last().note.file_path@, rows.last()@)
    }
}

proof fn lemma_row_map_contains(rows: Seq<CacheRow>, p: Seq<char>)
    ensures
        row_map(rows).contains_key(p) <==> (exists|i: int|
            0 <= i < rows.len() && (#[trigger] rows[i].note.file_path@) == p),
    decreases rows.len(),
{
    if rows.len() > 0 {
        let prefix = rows.drop_last();
        lemma_row_map_contains(prefix, p);
        if rows.last().note.file_path@ == p {
            assert(rows[rows.len() - 1].note.file_path@ == p);
        } else if row_map(prefix).contains_key(p) {
            let i = choose|i: int|
                0 <= i < prefix.len() && (#[trigger] prefix[i].note.file_path@) == p;
            assert(rows[i].note.file_path@ == p);
        } else {
            if exists|i: int| 0 <= i < rows.len() && (#[trigger] rows[i].note.file_path@) == p {
                let i = choose|i: int|
                    0 <= i < rows.len() && (#[trigger] rows[i].note.file_path@) == p;
                assert(i < rows.len() - 1);
                assert(prefix[i].note.file_path@ == p);
            }
        }
    }
}

proof fn lemma_row_map_get(rows: Seq<CacheRow>, i: int)
    requires
        distinct_paths(rows),
        0 <= i < rows.len(),
    ensures
        row_map(rows).contains_key(rows[i].note.file_path@),
        row_map(rows)[rows[i].note.file_path@] == rows[i]@,
    decreases rows.len(),
{
    let prefix = rows.drop_last();
    if i == rows.len() - 1 {
    } else {
        assert(distinct_paths(prefix)) by {
            assert forall|a: int, b: int| 0 <= a < b < prefix.len() implies (
            #[trigger] prefix[a].note.file_path@) != (#[trigger] prefix[b].note.file_path@) by {
                assert(rows[a].note.file_path@ != rows[b].note.file_path@);
            }
        }
        assert(prefix[i] == rows[i]);
        lemma_row_map_get(prefix, i);
        assert(rows[i].note.file_path@ != rows.last().note.file_path@);
    }
}

/// The cache store.
pub struct CacheDb {
    rows: Vec<CacheRow>,
}

impl CacheDb {
    /// The store as a map from file path to row.
    pub closed spec fn model(self) -> Map<Seq<char>, RowModel> {
        row_map(self.rows@)
    }

    /// Internal validity: live rows have pairwise distinct paths and
    /// identifiers.
    pub closed spec fn wf(self) -> bool {
        distinct_paths(self.rows@) && distinct_ids(self.rows@)
    }

    /// A fresh, empty store.
    pub fn new() -> (c: CacheDb)
        ensures
            c.wf(),
            c.model() == Map::<Seq<char>, RowModel>::empty(),
    {
        CacheDb { rows: Vec::new() }
    }

    /// Discards every row; the cache rebuilds lazily afterwards.
    pub fn invalidate_all(&mut self)
        ensures
            final(self).wf(),
            final(self).model() == Map::<Seq<char>, RowModel>::empty(),
    {
        self.rows.clear();
    }

    fn find_row(&self, file_path: &str) -> (r: Option<usize>)
        requires
            self.wf(),
        ensures
            match r {
                Option::Some(i) => i < self.rows@.len() && self.rows@[i as int].note.file_path@
                    == file_path@ && self.model().contains_key(file_path@) && self.model()[
                    file_path@
                ] == self.rows@[i as int]@,
                Option::None => !self.model().contains_key(file_path@),
            },
    {
        let mut i: usize = 0;
        while i < self.rows.len()
            invariant
                self.wf(),
                i <= self.rows@.len(),
                forall|j: int| 0 <= j < i ==> (#[trigger] self.rows@[j].note.file_path@)
                    != file_path@,
            decreases self.rows@.len() - i,
        {
            if str_eq(self.rows[i].note.file_path.as_str(), file_path) {
                proof {
                    lemma_row_map_get(self.rows@, i as int);
                }
                return Option::Some(i);
            }
            i = i + 1;
        }
        proof {
            lemma_row_map_contains(self.rows@, file_path@);
        }
        Option::None
    }

    /// Whether `file_path` must be re-parsed, judged against `current_mtime`.
    pub fn needs_update(&self, file_path: &str, current_mtime: i64) -> (r: bool)
        requires
            self.wf(),
        ensures
            r == spec_needs_update(self.model(), file_path@, current_mtime as int),
    {
        match self.find_row(file_path) {
            Option::None => true,
            Option::Some(i) => self.rows[i].file_mtime != current_mtime,
        }
    }

    /// The cached note at `file_path`, with both tag provenances, or nothing
    /// when the path is unknown.
    pub fn get_note(&self, file_path: &str) -> (r: Option<CachedNote>)
        requires
            self.wf(),
        ensures
            match r {
                Option::None => !self.model().contains_key(file_path@),
                Option::Some(c) => self.model().contains_key(file_path@) && c@.note
                    == self.model()[file_path@].note && c@.inline_tags == self.model()[
                    file_path@
                ].inline_tags,
            },
    {
        match self.find_row(file_path) {
            Option::None => Option::None,
            Option::Some(i) => {
                let row = &self.rows[i];
                let c = CachedNote {
                    note: copy_note(&row.note),
                    inline_tags: copy_strings(&row.inline_tags),
                };
                Option::Some(c)
            },
        }
    }

    /// Stores a note: replaces any row with the same path or the same
    /// identifier, and records the canonicalized tags of both provenances,
    /// the fingerprint and the modification time, all in one step.
    pub fn upsert_note(
        &mut self,
        note: &Note,
        content_hash: &str,
        file_mtime: i64,
        inline_tags: &Vec<String>,
        now: i64,
    )
        requires
            old(self).wf(),
        ensures
            final(self).wf(),
            final(self).model().contains_key(note@.file_path),
            final(self).model()[note@.file_path] == upserted_row(
                note@,
                content_hash@,
                file_mtime as int,
                string_views(inline_tags@),
                now as int,
            ),
            forall|p: Seq<char>|
                p != note@.file_path ==> ((#[trigger] final(self).model().contains_key(p)) <==> (
                old(self).model().contains_key(p) && old(self).model()[p].note.frontmatter.id
                    != note@.frontmatter.id)),
            forall|p: Seq<char>|
                p != note@.file_path && final(self).model().contains_key(p)
                    ==> #[trigger] final(self).model()[p] == old(self).model()[p],
    {
        let ghost orig = self.rows@;
        let n = self.rows.len();
        let mut kept: Vec<CacheRow> = Vec::new();
        let mut i: usize = 0;
        while i < n
            invariant
                n == self.rows@.len(),
                self.rows@ == orig,
                distinct_paths(orig),
                distinct_ids(orig),
                i <= n,
                distinct_paths(kept@),
                distinct_ids(kept@),
                forall|k: int|
                    0 <= k < kept@.len() ==> exists|j: int|
                        0 <= j < i && (#[trigger] kept@[k]@) == orig[j]@,
                forall|k: int|
                    0 <= k < kept@.len() ==> (#[trigger] kept@[k].note.file_path@)
                        != note.file_path@,
                forall|k: int|
                    0 <= k < kept@.len() ==> (#[trigger] kept@[k].note.frontmatter.id@)
                        != note.frontmatter.id@,
                forall|p: Seq<char>|
                    (#[trigger] row_map(kept@).contains_key(p)) <==> (row_map(
                        orig.subrange(0, i as int),
                    ).contains_key(p) && p != note.file_path@ && row_map(
                        orig.subrange(0, i as int),
                    )[p].note.frontmatter.id != note.frontmatter.id@),
                forall|p: Seq<char>|
                    row_map(kept@).contains_key(p) ==> (#[trigger] row_map(kept@)[p]) == row_map(
                        orig.subrange(0, i as int),
                    )[p],
            decreases n - i,
        {
            let ghost prefix = orig.subrange(0, i as int);
            let ghost prefix1 = orig.subrange(0, i + 1);
            proof {
                assert(prefix1.drop_last() =~= prefix);
                assert(prefix1.last() == orig[i as int]);
            }
            let row = &self.rows[i];
            let keep = !str_eq(row.note.file_path.as_str(), note.file_path.as_str())
                && !str_eq(row.note.frontmatter.id.as_str(), note.frontmatter.id.as_str());
            if keep {
                let copy = copy_row(row);
                let ghost old_kept = kept@;
                kept.push(copy);
                proof {
                    assert(kept@.drop_last() =~= old_kept);
                    assert(kept@.last() == copy);
                    assert(copy@ == orig[i as int]@);
                    assert forall|k: int| 0 <= k < kept@.len() implies exists|j: int|
                        0 <= j < i + 1 && (#[trigger] kept@[k]@) == orig[j]@ by {
                        if k < old_kept.len() {
                            assert(kept@[k] == old_kept[k]);
                            let j = choose|j: int|
                                0 <= j < i && (#[trigger] old_kept[k]@) == orig[j]@;
                            assert(kept@[k]@ == orig[j]@);
                        } else {
                            assert(kept@[k]@ == orig[i as int]@);
                        }
                    }
                    assert forall|k: int| 0 <= k < kept@.len() implies (
                    #[trigger] kept@[k].note.file_path@) != note.file_path@ by {
                        if k < old_kept.len() {
                            assert(kept@[k] == old_kept[k]);
                        } else {
                            assert(kept@[k] == copy);
                        }
                    }
                    assert forall|k: int| 0 <= k < kept@.len() implies (
                    #[trigger] kept@[k].note.frontmatter.id@) != note.frontmatter.id@ by {
                        if k < old_kept.len() {
                            assert(kept@[k] == old_kept[k]);
                        } else {
                            assert(kept@[k] == copy);
                        }
                    }
                    assert forall|a: int, b: int| 0 <= a < b < kept@.len() implies (
                    #[trigger] kept@[a].note.file_path@) != (
                    #[trigger] kept@[b].note.file_path@) by {
                        if b == kept@.len() - 1 {
                            let j = choose|j: int|
                                0 <= j < i && (#[trigger] old_kept[a]@) == orig[j]@;
                            assert(orig[j].note.file_path@ != orig[i as int].note.file_path@);
                        }
                    }
                    assert forall|a: int, b: int| 0 <= a < b < kept@.len() implies (
                    #[trigger] kept@[a].note.frontmatter.id@) != (
                    #[trigger] kept@[b].note.frontmatter.id@) by {
                        if b == kept@.len() - 1 {
                            let j = choose|j: int|
                                0 <= j < i && (#[trigger] old_kept[a]@) == orig[j]@;
                            assert(orig[j].note.frontmatter.id@ != orig[
                                i as int
                            ].note.frontmatter.id@);
                        }
                    }
                    assert(row_map(kept@) == row_map(old_kept).insert(
                        orig[i as int].note.file_path@,
                        orig[i as int]@,
                    ));
                    assert(row_map(prefix1) == row_map(prefix).insert(
                        orig[i as int].note.file_path@,
                        orig[i as int]@,
                    ));
                }
            } else {
                proof {
                    assert(row_map(prefix1) == row_map(prefix).insert(
                        orig[i as int].note.file_path@,
                        orig[i as int]@,
                    ));
                    // the dropped row is the one being replaced: either its
                    // path or its identifier matches the incoming note; by
                    // distinctness no earlier row shares its path
                    let p = orig[i as int].note.file_path@;
                    lemma_row_map_contains(prefix, p);
                    if row_map(prefix).contains_key(p) {
                        let j = choose|j: int|
                            0 <= j < prefix.len() && (#[trigger] prefix[j].note.file_path@) == p;
                        assert(orig[j].note.file_path@ == orig[i as int].note.file_path@);
                        assert(false);
                    }
                }
            }
            i = i + 1;
        }
        proof {
            assert(orig.subrange(0, n as int) =~= orig);
        }
        let new_row = CacheRow {
            note: Note {
                frontmatter: NoteFrontmatter {
                    id: note.frontmatter.id.clone(),
                    title: note.frontmatter.title.clone(),
                    created: note.frontmatter.created,
                    modified: note.frontmatter.modified,
                    date: copy_opt_string(&note.frontmatter.date),
                    column: note.frontmatter.column.clone(),
                    tags: canonical_tags(&note.frontmatter.tags),
                    order: note.frontmatter.order,
                },
                content: note.content.clone(),
                file_path: note.file_path.clone(),
            },
            inline_tags: canonical_tags(inline_tags),
            content_hash: content_hash.to_owned(),
            file_mtime: file_mtime,
            cached_at: now,
        };
        proof {
            assert(new_row@ == upserted_row(
                note@,
                content_hash@,
                file_mtime as int,
                string_views(inline_tags@),
                now as int,
            ));
        }
        let ghost old_kept = kept@;
        kept.push(new_row);
        proof {
            assert(kept@.drop_last() =~= old_kept);
            assert(row_map(kept@) == row_map(old_kept).insert(
                kept@.last().note.file_path@,
                kept@.last()@,
            ));
        }
        self.rows = kept;
    }

    /// Deletes the row at `file_path`; nothing happens when it is absent.
    pub fn remove_note(&mut self, file_path: &str)
        requires
            old(self).wf(),
        ensures
            final(self).wf(),
            forall|p: Seq<char>|
                (#[trigger] final(self).model().contains_key(p)) <==> (old(
                    self,
                ).model().contains_key(p) && p != file_path@),
            forall|p: Seq<char>|
                final(self).model().contains_key(p) ==> (#[trigger] final(self).model()[p]) == old(
                    self,
                ).model()[p],
    {
        let ghost orig = self.rows@;
        let n = self.rows.len();
        let mut kept: Vec<CacheRow> = Vec::new();
        let mut i: usize = 0;
        while i < n
            invariant
                n == self.rows@.len(),
                self.rows@ == orig,
                distinct_paths(orig),
                distinct_ids(orig),
                i <= n,
                distinct_paths(kept@),
                distinct_ids(kept@),
                forall|k: int|
                    0 <= k < kept@.len() ==> exists|j: int|
                        0 <= j < i && (#[trigger] kept@[k]@) == orig[j]@,
                forall|p: Seq<char>|
                    (#[trigger] row_map(kept@).contains_key(p)) <==> (row_map(
                        orig.subrange(0, i as int),
                    ).contains_key(p) && p != file_path@),
                forall|p: Seq<char>|
                    row_map(kept@).contains_key(p) ==> (#[trigger] row_map(kept@)[p]) == row_map(
                        orig.subrange(0, i as int),
                    )[p],
            decreases n - i,
        {
            let ghost prefix = orig.subrange(0, i as int);
            let ghost prefix1 = orig.subrange(0, i + 1);
            proof {
                assert(prefix1.drop_last() =~= prefix);
                assert(prefix1.last() == orig[i as int]);
                assert(row_map(prefix1) == row_map(prefix).insert(
                    orig[i as int].note.file_path@,
                    orig[i as int]@,
                ));
            }
            let row = &self.rows[i];
            if !str_eq(row.note.file_path.as_str(), file_path) {
                let copy = copy_row(row);
                let ghost old_kept = kept@;
                kept.push(copy);
                proof {
                    assert(kept@.drop_last() =~= old_kept);
                    assert(copy@ == orig[i as int]@);
                    assert forall|k: int| 0 <= k < kept@.len() implies exists|j: int|
                        0 <= j < i + 1 && (#[trigger] kept@[k]@) == orig[j]@ by {
                        if k < old_kept.len() {
                            let j = choose|j: int|
                                0 <= j < i && (#[trigger] old_kept[k]@) == orig[j]@;
                            assert(kept@[k]@ == orig[j]@);
                        } else {
                            assert(kept@[k]@ == orig[i as int]@);
                        }
                    }
                    assert forall|a: int, b: int| 0 <= a < b < kept@.len() implies (
                    #[trigger] kept@[a].note.file_path@) != (
                    #[trigger] kept@[b].note.file_path@) by {
                        if b == kept@.len() - 1 {
                            let j = choose|j: int|
                                0 <= j < i && (#[trigger] old_kept[a]@) == orig[j]@;
                            assert(orig[j].note.file_path@ != orig[i as int].note.file_path@);
                        }
                    }
                    assert forall|a: int, b: int| 0 <= a < b < kept@.len() implies (
                    #[trigger] kept@[a].note.frontmatter.id@) != (
                    #[trigger] kept@[b].note.frontmatter.id@) by {
                        if b == kept@.len() - 1 {
                            let j = choose|j: int|
                                0 <= j < i && (#[trigger] old_kept[a]@) == orig[j]@;
                            assert(orig[j].note.frontmatter.id@ != orig[
                                i as int
                            ].note.frontmatter.id@);
                        }
                    }
                    assert(row_map(kept@) == row_map(old_kept).insert(
                        orig[i as int].note.file_path@,
                        orig[i as int]@,
                    ));
                }
            }
            i = i + 1;
        }
        proof {
            assert(orig.subrange(0, n as int) =~= orig);
        }
        self.rows = kept;
    }

    /// Deletes every row whose path is not in `valid_paths`; used after a
    /// full walk to drop rows for files that vanished out-of-band.
    pub fn remove_notes_not_in(&mut self, valid_paths: &Vec<String>)
        requires
            old(self).wf(),
        ensures
            final(self).wf(),
            forall|p: Seq<char>|
                (#[trigger] final(self).model().contains_key(p)) <==> (old(
                    self,
                ).model().contains_key(p) && string_views(valid_paths@).contains(p)),
            forall|p: Seq<char>|
                final(self).model().contains_key(p) ==> (#[trigger] final(self).model()[p]) == old(
                    self,
                ).model()[p],
    {
        let ghost orig = self.rows@;
        let n = self.rows.len();
        let mut kept: Vec<CacheRow> = Vec::new();
        let mut i: usize = 0;
        while i < n
            invariant
                n == self.rows@.len(),
                self.rows@ == orig,
                distinct_paths(orig),
                distinct_ids(orig),
                i <= n,
                distinct_paths(kept@),
                distinct_ids(kept@),
                forall|k: int|
                    0 <= k < kept@.len() ==> exists|j: int|
                        0 <= j < i && (#[trigger] kept@[k]@) == orig[j]@,
                forall|p: Seq<char>|
                    (#[trigger] row_map(kept@).contains_key(p)) <==> (row_map(
                        orig.subrange(0, i as int),
                    ).contains_key(p) && string_views(valid_paths@).contains(p)),
                forall|p: Seq<char>|
                    row_map(kept@).contains_key(p) ==> (#[trigger] row_map(kept@)[p]) == row_map(
                        orig.subrange(0, i as int),
                    )[p],
            decreases n - i,
        {
            let ghost prefix = orig.subrange(0, i as int);
            let ghost prefix1 = orig.subrange(0, i + 1);
            proof {
                assert(prefix1.drop_last() =~= prefix);
                assert(prefix1.last() == orig[i as int]);
                assert(row_map(prefix1) == row_map(prefix).insert(
                    orig[i as int].note.file_path@,
                    orig[i as int]@,
                ));
            }
            let row = &self.rows[i];
            if contains_string(valid_paths, &row.note.file_path) {
                let copy = copy_row(row);
                let ghost old_kept = kept@;
                kept.push(copy);
                proof {
                    assert(kept@.drop_last() =~= old_kept);
                    assert(copy@ == orig[i as int]@);
                    assert forall|k: int| 0 <= k < kept@.len() implies exists|j: int|
                        0 <= j < i + 1 && (#[trigger] kept@[k]@) == orig[j]@ by {
                        if k < old_kept.len() {
                            let j = choose|j: int|
                                0 <= j < i && (#[trigger] old_kept[k]@) == orig[j]@;
                            assert(kept@[k]@ == orig[j]@);
                        } else {
                            assert(kept@[k]@ == orig[i as int]@);
                        }
                    }
                    assert forall|a: int, b: int| 0 <= a < b < kept@.len() implies (
                    #[trigger] kept@[a].note.file_path@) != (
                    #[trigger] kept@[b].note.file_path@) by {
                        if b == kept@.len() - 1 {
                            let j = choose|j: int|
                                0 <= j < i && (#[trigger] old_kept[a]@) == orig[j]@;
                            assert(orig[j].note.file_path@ != orig[i as int].note.file_path@);
                        }
                    }
                    assert forall|a: int, b: int| 0 <= a < b < kept@.len() implies (
                    #[trigger] kept@[a].note.frontmatter.id@) != (
                    #[trigger] kept@[b].note.frontmatter.id@) by {
                        if b == kept@.len() - 1 {
                            let j = choose|j: int|
                                0 <= j < i && (#[trigger] old_kept[a]@) == orig[j]@;
                            assert(orig[j].note.frontmatter.id@ != orig[
                                i as int
                            ].note.frontmatter.id@);
                        }
                    }
                    assert(row_map(kept@) == row_map(old_kept).insert(
                        orig[i as int].note.file_path@,
                        orig[i as int]@,
                    ));
                }
            }
            i = i + 1;
        }
        proof {
            assert(orig.subrange(0, n as int) =~= orig);
        }
        self.rows = kept;
    }

    /// Every cached note, each path exactly once, with both tag provenances.
    pub fn get_all_notes(&self) -> (r: Vec<CachedNote>)
        requires
            self.wf(),
        ensures
            forall|k: int|
                0 <= k < r@.len() ==> self.model().contains_key(
                    (#[trigger] r@[k])@.note.file_path,
                ) && self.model()[r@[k]@.note.file_path].note == r@[k]@.note && self.model()[
                    r@[k]@.note.file_path
                ].inline_tags == r@[k]@.inline_tags,
            forall|p: Seq<char>|
                #[trigger] self.model().contains_key(p) ==> exists|k: int|
                    0 <= k < r@.len() && (#[trigger] r@[k])@.note.file_path == p,
            forall|k: int, l: int|
                0 <= k < l < r@.len() ==> (#[trigger] r@[k])@.note.file_path != (
                #[trigger] r@[l])@.note.file_path,
    {
        let n = self.rows.len();
        let mut r: Vec<CachedNote> = Vec::new();
        let mut i: usize = 0;
        while i < n
            invariant
                self.wf(),
                n == self.rows@.len(),
                i <= n,
                r@.len() == i,
                forall|k: int|
                    0 <= k < i ==> (#[trigger] r@[k])@.note == self.rows@[k]@.note && r@[
                        k
                    ]@.inline_tags == self.rows@[k]@.inline_tags,
            decreases n - i,
        {
            let row = &self.rows[i];
            let c = CachedNote {
                note: copy_note(&row.note),
                inline_tags: copy_strings(&row.inline_tags),
            };
            r.push(c);
            i = i + 1;
        }
        proof {
            assert forall|k: int| 0 <= k < r@.len() implies self.model().contains_key(
                (#[trigger] r@[k])@.note.file_path,
            ) && self.model()[r@[k]@.note.file_path].note == r@[k]@.note && self.model()[
                r@[k]@.note.file_path
            ].inline_tags == r@[k]@.inline_tags by {
                lemma_row_map_get(self.rows@, k);
            }
            assert forall|p: Seq<char>| #[trigger]
                self.model().contains_key(p) implies exists|k: int|
                0 <= k < r@.len() && (#[trigger] r@[k])@.note.file_path == p by {
                lemma_row_map_contains(self.rows@, p);
                let j = choose|j: int|
                    0 <= j < self.rows@.len() && (#[trigger] self.rows@[j].note.file_path@) == p;
                assert(r@[j]@.note.file_path == p);
            }
        }
        r
    }
}

fn copy_row(row: &CacheRow) -> (r: CacheRow)
    ensures
        r@ == row@,
        r.note.file_path@ == row.note.file_path@,
        r.note.frontmatter.id@ == row.note.frontmatter.id@,
{
    CacheRow {
        note: copy_note(&row.note),
        inline_tags: copy_strings(&row.inline_tags),
        content_hash: row.content_hash.clone(),
        file_mtime: row.file_mtime,
        cached_at: row.cached_at,
    }
}

/// Staleness follows the store exactly: an unknown path always needs a
/// re-parse; right after a row is stored with modification time `t` the same
/// path needs none when queried with `t`, and needs one again when queried
/// with any other time.
pub proof fn lemma_staleness_oracle(
    m: Map<Seq<char>, RowModel>,
    row: RowModel,
    p: Seq<char>,
    t: int,
    t2: int,
)
    requires
        row.file_mtime == t,
    ensures
        !m.contains_key(p) ==> spec_needs_update(m, p, t2),
        !spec_needs_update(m.insert(p, row), p, t),
        t2 != t ==> spec_needs_update(m.insert(p, row), p, t2),
{
}

/// Storing a note and reading the same path back yields every note field and
/// both tag provenances exactly, in their canonical form.
pub proof fn lemma_upsert_get_round_trip(
    m: Map<Seq<char>, RowModel>,
    note: NoteModel,
    content_hash: Seq<char>,
    file_mtime: int,
    inline_tags: Seq<Seq<char>>,
    now: int,
)
    ensures
        ({
            let row = upserted_row(note, content_hash, file_mtime, inline_tags, now);
            let m2 = m.insert(note.file_path, row);
            &&& m2.contains_key(note.file_path)
            &&& m2[note.file_path].note.frontmatter.id == note.frontmatter.id
            &&& m2[note.file_path].note.frontmatter.title == note.frontmatter.title
            &&& m2[note.file_path].note.frontmatter.created == note.frontmatter.created
            &&& m2[note.file_path].note.frontmatter.modified == note.frontmatter.modified
            &&& m2[note.file_path].note.frontmatter.date == note.frontmatter.date
            &&& m2[note.file_path].note.frontmatter.column == note.frontmatter.column
            &&& m2[note.file_path].note.frontmatter.order == note.frontmatter.order
            &&& m2[note.file_path].note.frontmatter.tags == canon_tags(note.frontmatter.tags)
            &&& m2[note.file_path].note.content == note.content
            &&& m2[note.file_path].note.file_path == note.file_path
            &&& m2[note.file_path].inline_tags == canon_tags(inline_tags)
            &&& m2[note.file_path].content_hash == content_hash
            &&& m2[note.file_path].file_mtime == file_mtime
        }),
{
}

/// Removing a path leaves the store without it, and removing an absent path
/// changes nothing and raises no error: both facts follow from the removal
/// relation alone.
pub proof fn lemma_remove_semantics(
    m: Map<Seq<char>, RowModel>,
    m2: Map<Seq<char>, RowModel>,
    p: Seq<char>,
)
    requires
        forall|q: Seq<char>| (#[trigger] m2.contains_key(q)) <==> (m.contains_key(q) && q != p),
        forall|q: Seq<char>| m2.contains_key(q) ==> (#[trigger] m2[q]) == m[q],
    ensures
        !m2.contains_key(p),
        !m.contains_key(p) ==> m2 =~= m,
{
    assert(!m2.contains_key(p));
    if !m.contains_key(p) {
        assert forall|q: Seq<char>| m.contains_key(q) implies m2.contains_key(q) && m2[q]
            == m[q] by {
            assert(q != p);
        }
    }
}

} // verus!
