//! The self-write tracker: a short-lived, bounded record of paths this
//! process itself wrote, consulted by the reconciliation path to drop change
//! notifications that are echoes of the application's own writes.
//!
//! Times are monotonic milliseconds supplied by the caller.  An entry counts
//! as recent for the suppression window; housekeeping evicts entries older
//! than the longer cleanup window, and a hard cap bounds the table, dropping
//! the older half when it fills regardless of write volume.

use vstd::prelude::*;

use crate::text::str_eq;

verus! {

/// Hard cap on tracked paths.
pub const WRITE_CAP: usize = 1000;

/// Half of the cap: what survives an overflow eviction.
pub const WRITE_CAP_HALF: usize = 500;

/// How long an entry suppresses change notifications, in milliseconds.
pub const SUPPRESS_WINDOW_MS: i64 = 2000;

/// How long an entry is kept at all, in milliseconds.
pub const CLEANUP_WINDOW_MS: i64 = 5000;

struct WriteEntry {
    path: String,
    at: i64,
}

spec fn distinct_entry_paths(entries: Seq<WriteEntry>) -> bool {
    forall|i: int, j: int|
        0 <= i < j < entries.len() ==> (#[trigger] entries[i].path@) != (
        #[trigger] entries[j].path@)
}

spec fn entry_times_ok(entries: Seq<WriteEntry>) -> bool {
    forall|i: int| 0 <= i < entries.len() ==> (#[trigger] entries[i].at) >= 0
}

spec fn entry_map(entries: Seq<WriteEntry>) -> Map<Seq<char>, int>
    decreases entries.len(),
{
    if entries.len() == 0 {
        Map::empty()
    } else {
        entry_map(entries.drop_last()).insert(entries.last().path@, entries.last().at as int)
    }
}

proof fn lemma_entry_map_contains(entries: Seq<WriteEntry>, p: Seq<char>)
    ensures
        entry_map(entries).contains_key(p) <==> (exists|i: int|
            0 <= i < entries.len() && (#[trigger] entries[i].path@) == p),
    decreases entries.len(),
{
    if entries.len() > 0 {
        let prefix = entries.drop_last();
        lemma_entry_map_contains(prefix, p);
        if entries.last().path@ == p {
            assert(entries[entries.len() - 1].path@ == p);
        } else if entry_map(prefix).contains_key(p) {
            let i = choose|i: int| 0 <= i < prefix.len() && (#[trigger] prefix[i].path@) == p;
            assert(entries[i].path@ == p);
        } else {
            if exists|i: int| 0 <= i < entries.len() && (#[trigger] entries[i].path@) == p {
                let i = choose|i: int| 0 <= i < entries.len() && (#[trigger] entries[i].path@) == p;
                assert(i < entries.len() - 1);
                assert(prefix[i].path@ == p);
            }
        }
    }
}

proof fn lemma_entry_map_get(entries: Seq<WriteEntry>, i: int)
    requires
        distinct_entry_paths(entries),
        0 <= i < entries.len(),
    ensures
        entry_map(entries).contains_key(entries[i].path@),
        entry_map(entries)[entries[i].path@] == entries[i].at as int,
    decreases entries.len(),
{
    let prefix = entries.drop_last();
    if i == entries.len() - 1 {
    } else {
        assert(distinct_entry_paths(prefix)) by {
            assert forall|a: int, b: int| 0 <= a < b < prefix.len() implies (
            #[trigger] prefix[a].path@) != (#[trigger] prefix[b].path@) by {
                assert(entries[a].path@ != entries[b].path@);
            }
        }
        assert(prefix[i] == entries[i]);
        lemma_entry_map_get(prefix, i);
        assert(entries[i].path@ != entries.last().path@);
    }
}

/// Whether a notification for `path` arriving at `now` is a self-write echo:
/// the path was recorded and its age is below the suppression window.
pub open spec fn spec_is_recent(m: Map<Seq<char>, int>, path: Seq<char>, now: int) -> bool {
    m.contains_key(path) && now - m[path] < SUPPRESS_WINDOW_MS as int
}

/// The tracker: recently written paths with the time of the write.
pub struct WriteTracker {
    entries: Vec<WriteEntry>,
}

impl WriteTracker {
    /// The tracker as a map from path to the time it was last recorded.
    pub closed spec fn model(self) -> Map<Seq<char>, int> {
        entry_map(self.entries@)
    }

    /// Internal validity: one entry per path, non-negative times.
    pub closed spec fn wf(self) -> bool {
        distinct_entry_paths(self.entries@) && entry_times_ok(self.entries@)
    }

    /// How many paths are tracked.
    pub closed spec fn count(self) -> nat {
        self.entries@.len()
    }

    /// A fresh, empty tracker.
    pub fn new() -> (t: WriteTracker)
        ensures
            t.wf(),
            t.model() == Map::<Seq<char>, int>::empty(),
            t.count() == 0,
    {
        WriteTracker { entries: Vec::new() }
    }

    /// Whether `file_path` was recorded within the suppression window before
    /// `now_ms`.
    pub fn is_recent_write(&self, file_path: &str, now_ms: i64) -> (r: bool)
        requires
            self.wf(),
            now_ms >= 0,
        ensures
            r == spec_is_recent(self.model(), file_path@, now_ms as int),
    {
        let n = self.entries.len();
        let mut i: usize = 0;
        while i < n
            invariant
                self.wf(),
                now_ms >= 0,
                n == self.entries@.len(),
                i <= n,
                forall|j: int| 0 <= j < i ==> (#[trigger] self.entries@[j].path@) != file_path@,
            decreases n - i,
        {
            if str_eq(self.entries[i].path.as_str(), file_path) {
                proof {
                    lemma_entry_map_get(self.entries@, i as int);
                }
                return now_ms - self.entries[i].at < SUPPRESS_WINDOW_MS;
            }
            i = i + 1;
        }
        proof {
            lemma_entry_map_contains(self.entries@, file_path@);
        }
        false
    }

    /// Records that this process wrote `file_path` at `now_ms`.  The entry
    /// replaces any older one for the same path; entries beyond the cleanup
    /// window are evicted, and when the table is full only the most recently
    /// written half survives, so the table never exceeds its cap.
    pub fn record_write(&mut self, file_path: &str, now_ms: i64)
        requires
            old(self).wf(),
            now_ms >= 0,
        ensures
            final(self).wf(),
            final(self).model().contains_key(file_path@),
            final(self).model()[file_path@] == now_ms as int,
            forall|q: Seq<char>|
                q != file_path@ && #[trigger] final(self).model().contains_key(q) ==> old(
                    self,
                ).model().contains_key(q) && final(self).model()[q] == old(self).model()[q],
            forall|q: Seq<char>|
                q != file_path@ && #[trigger] final(self).model().contains_key(q) ==> now_ms as int
                    - final(self).model()[q] < CLEANUP_WINDOW_MS as int,
            old(self).count() < WRITE_CAP ==> (forall|q: Seq<char>|
                q != file_path@ ==> ((#[trigger] final(self).model().contains_key(q)) <==> (old(
                    self,
                ).model().contains_key(q) && now_ms as int - old(self).model()[q]
                    < CLEANUP_WINDOW_MS as int))),
            final(self).count() <= WRITE_CAP,
    {
        let ghost orig = self.entries@;
        let was_full = self.entries.len() >= WRITE_CAP;
        let n = self.entries.len();

        // One pass: drop the entry for this path and everything beyond the
        // cleanup window.
        let mut kept: Vec<WriteEntry> = Vec::new();
        let mut i: usize = 0;
        while i < n
            invariant
                n == self.entries@.len(),
                self.entries@ == orig,
                distinct_entry_paths(orig),
                entry_times_ok(orig),
                now_ms >= 0,
                i <= n,
                kept@.len() <= i,
                distinct_entry_paths(kept@),
                entry_times_ok(kept@),
                forall|k: int|
                    0 <= k < kept@.len() ==> exists|j: int|
                        0 <= j < i && (#[trigger] kept@[k]) == orig[j],
                forall|k: int| 0 <= k < kept@.len() ==> (#[trigger] kept@[k].path@) != file_path@,
                forall|k: int|
                    0 <= k < kept@.len() ==> now_ms as int - (#[trigger] kept@[k].at as int)
                        < CLEANUP_WINDOW_MS as int,
                forall|p: Seq<char>|
                    (#[trigger] entry_map(kept@).contains_key(p)) <==> (entry_map(
                        orig.subrange(0, i as int),
                    ).contains_key(p) && p != file_path@ && now_ms as int - entry_map(
                        orig.subrange(0, i as int),
                    )[p] < CLEANUP_WINDOW_MS as int),
                forall|p: Seq<char>|
                    entry_map(kept@).contains_key(p) ==> (#[trigger] entry_map(kept@)[p])
                        == entry_map(orig.subrange(0, i as int))[p],
            decreases n - i,
        {
            let ghost prefix = orig.subrange(0, i as int);
            let ghost prefix1 = orig.subrange(0, i + 1);
            proof {
                assert(prefix1.drop_last() =~= prefix);
                assert(prefix1.last() == orig[i as int]);
                assert(entry_map(prefix1) == entry_map(prefix).insert(
                    orig[i as int].path@,
                    orig[i as int].at as int,
                ));
                let p = orig[i as int].path@;
                lemma_entry_map_contains(prefix, p);
                if entry_map(prefix).contains_key(p) {
                    let j = choose|j: int| 0 <= j < prefix.len() && (#[trigger] prefix[j].path@) == p;
                    assert(orig[j].path@ == orig[i as int].path@);
                    assert(false);
                }
            }
            let e = &self.entries[i];
            if !str_eq(e.path.as_str(), file_path) && now_ms - e.at < CLEANUP_WINDOW_MS {
                let copy = WriteEntry { path: e.path.clone(), at: e.at };
                let ghost old_kept = kept@;
                kept.push(copy);
                proof {
                    assert(kept@.drop_last() =~= old_kept);
                    assert(copy == orig[i as int]);
                    assert forall|k: int| 0 <= k < kept@.len() implies exists|j: int|
                        0 <= j < i + 1 && (#[trigger] kept@[k]) == orig[j] by {
                        if k < old_kept.len() {
                            let j = choose|j: int| 0 <= j < i && (#[trigger] old_kept[k]) == orig[j];
                            assert(kept@[k] == orig[j]);
                        } else {
                            assert(kept@[k] == orig[i as int]);
                        }
                    }
                    assert forall|a: int, b: int| 0 <= a < b < kept@.len() implies (
                    #[trigger] kept@[a].path@) != (#[trigger] kept@[b].path@) by {
                        if b == kept@.len() - 1 {
                            let j = choose|j: int| 0 <= j < i && (#[trigger] old_kept[a]) == orig[j];
                            assert(orig[j].path@ != orig[i as int].path@);
                        }
                    }
                    assert(entry_map(kept@) == entry_map(old_kept).insert(
                        orig[i as int].path@,
                        orig[i as int].at as int,
                    ));
                }
            }
            i = i + 1;
        }
        proof {
            assert(orig.subrange(0, n as int) =~= orig);
        }

        if was_full && kept.len() >= WRITE_CAP {
            // Still full after housekeeping: keep only the most recently
            // written half, judged by the half-way time.
            let ghost before = kept@;
            let mut times: Vec<i64> = Vec::new();
            let mut ti: usize = 0;
            while ti < kept.len()
                invariant
                    ti <= kept@.len(),
                    times@.len() == ti,
                decreases kept@.len() - ti,
            {
                times.push(kept[ti].at);
                ti = ti + 1;
            }
            let times = sort_times_desc(&times);
            let thresh = times[WRITE_CAP_HALF - 1];
            let m = kept.len();
            let mut half: Vec<WriteEntry> = Vec::new();
            let mut h: usize = 0;
            while h < m
                invariant
                    m == kept@.len(),
                    kept@ == before,
                    distinct_entry_paths(before),
                    entry_times_ok(before),
                    h <= m,
                    half@.len() <= WRITE_CAP_HALF,
                    distinct_entry_paths(half@),
                    entry_times_ok(half@),
                    forall|k: int|
                        0 <= k < half@.len() ==> exists|j: int|
                            0 <= j < h && (#[trigger] half@[k]) == before[j],
                    forall|p: Seq<char>|
                        (#[trigger] entry_map(half@).contains_key(p)) ==> entry_map(
                            before,
                        ).contains_key(p) && entry_map(half@)[p] == entry_map(before)[p],
                decreases m - h,
            {
                let e = &kept[h];
                if e.at >= thresh && half.len() < WRITE_CAP_HALF {
                    let copy = WriteEntry { path: e.path.clone(), at: e.at };
                    let ghost old_half = half@;
                    half.push(copy);
                    proof {
                        assert(half@.drop_last() =~= old_half);
                        assert(copy == before[h as int]);
                        assert forall|k: int| 0 <= k < half@.len() implies exists|j: int|
                            0 <= j < h + 1 && (#[trigger] half@[k]) == before[j] by {
                            if k < old_half.len() {
                                let j = choose|j: int|
                                    0 <= j < h && (#[trigger] old_half[k]) == before[j];
                                assert(half@[k] == before[j]);
                            } else {
                                assert(half@[k] == before[h as int]);
                            }
                        }
                        assert forall|a: int, b: int| 0 <= a < b < half@.len() implies (
                        #[trigger] half@[a].path@) != (#[trigger] half@[b].path@) by {
                            if b == half@.len() - 1 {
                                let j = choose|j: int|
                                    0 <= j < h && (#[trigger] old_half[a]) == before[j];
                                assert(before[j].path@ != before[h as int].path@);
                            }
                        }
                        assert(entry_map(half@) == entry_map(old_half).insert(
                            before[h as int].path@,
                            before[h as int].at as int,
                        ));
                        lemma_entry_map_get(before, h as int);
                    }
                }
                h = h + 1;
            }
            proof {
                assert forall|k: int| 0 <= k < half@.len() implies (#[trigger] half@[k].path@)
                    != file_path@ by {
                    let j = choose|j: int| 0 <= j < m && (#[trigger] half@[k]) == before[j];
                    assert(before[j].path@ != file_path@);
                }
                assert forall|k: int| 0 <= k < half@.len() implies now_ms as int - (
                #[trigger] half@[k].at as int) < CLEANUP_WINDOW_MS as int by {
                    let j = choose|j: int| 0 <= j < m && (#[trigger] half@[k]) == before[j];
                    assert(now_ms as int - (before[j].at as int) < CLEANUP_WINDOW_MS as int);
                }
            }
            kept = half;
        }

        let new_entry = WriteEntry { path: file_path.to_owned(), at: now_ms };
        let ghost old_kept = kept@;
        kept.push(new_entry);
        proof {
            assert(kept@.drop_last() =~= old_kept);
            assert(kept@.last().path@ == file_path@);
            assert(kept@.last().at == now_ms);
            assert(entry_map(kept@) == entry_map(old_kept).insert(file_path@, now_ms as int));
            assert forall|a: int, b: int| 0 <= a < b < kept@.len() implies (
            #[trigger] kept@[a].path@) != (#[trigger] kept@[b].path@) by {
                if b == kept@.len() - 1 {
                    assert(old_kept[a].path@ != file_path@);
                }
            }
        }
        self.entries = kept;
    }
}

fn sort_times_desc(v: &Vec<i64>) -> (r: Vec<i64>)
    ensures
        r@.len() == v@.len(),
        forall|a: int, b: int| 0 <= a < b < r@.len() ==> (#[trigger] r@[a]) >= (#[trigger] r@[b]),
{
    let mut out: Vec<i64> = Vec::new();
    let mut idx: usize = 0;
    while idx < v.len()
        invariant
            idx <= v@.len(),
            out@.len() == idx,
            forall|a: int, b: int| 0 <= a < b < out@.len() ==> (#[trigger] out@[a]) >= (
            #[trigger] out@[b]),
        decreases v@.len() - idx,
    {
        let x = v[idx];
        let mut k: usize = 0;
        while k < out.len() && out[k] >= x
            invariant
                k <= out@.len(),
                forall|m: int| 0 <= m < k ==> (#[trigger] out@[m]) >= x,
            decreases out@.len() - k,
        {
            k = k + 1;
        }
        let ghost old_out = out@;
        out.insert(k, x);
        proof {
            old_out.insert_ensures(k as int, x);
            assert forall|a: int, b: int| 0 <= a < b < out@.len() implies (#[trigger] out@[a]) >= (
            #[trigger] out@[b]) by {
                assert forall|i: int| k < i < out@.len() implies #[trigger] out@[i] == old_out[i
                    - 1] by {
                    assert(old_out.insert(k as int, x)[(i - 1) + 1] == old_out[i - 1]);
                }
            }
        }
        idx = idx + 1;
    }
    out
}

/// The suppression decision depends only on the recorded time and the
/// notification's time: after a write to a path is recorded at `t`, a change
/// notification for that path arriving at `t2` is a self-write echo exactly
/// when less than the suppression window has passed, and is processed
/// normally once the window has elapsed.
pub proof fn lemma_suppression_window(m: Map<Seq<char>, int>, p: Seq<char>, t: int, t2: int)
    ensures
        spec_is_recent(m.insert(p, t), p, t2) == (t2 - t < SUPPRESS_WINDOW_MS as int),
{
}

} // verus!
