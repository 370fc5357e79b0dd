//! Inline tag extraction from note bodies.
//!
//! A tag is a `#` followed by an ASCII letter and a run of letters, digits,
//! hyphens and underscores, standing either at the start of the text or after
//! a non-alphanumeric character.  Fenced code blocks (between two ```` ``` ````
//! markers) and inline code spans (between two backticks on one line) are
//! removed before scanning, so nothing inside them counts as a tag.  The
//! result is lowercased, sorted ascending and free of duplicates.

use vstd::prelude::*;

use crate::text::append_range;
use crate::text::ascii_alnum;
use crate::text::ascii_letter;
use crate::text::ascii_lower;
use crate::text::chars_of;
use crate::text::is_ascii_alnum;
use crate::text::is_ascii_letter;
use crate::text::lemma_lex_total;
use crate::text::lemma_lex_trans;
use crate::text::lex_le;
use crate::text::lex_lt;
use crate::text::string_eq;
use crate::text::string_from_chars;
use crate::text::str_lex_le;
use crate::text::to_ascii_lower;

verus! {

/// Three consecutive occurrences of `c` start at `i`.
pub open spec fn triple_at(s: Seq<char>, c: char, i: int) -> bool {
    0 <= i && i + 3 <= s.len() && s[i] == c && s[i + 1] == c && s[i + 2] == c
}

/// Index of the first triple of `c` at or after `i`, or -1 if there is none.
pub open spec fn find_triple_from(s: Seq<char>, c: char, i: int) -> int
    decreases s.len() - i,
{
    if i < 0 || i + 3 > s.len() {
        -1
    } else if triple_at(s, c, i) {
        i
    } else {
        find_triple_from(s, c, i + 1)
    }
}

/// Index of the first occurrence of `c` at or after `i`, or -1 if there is
/// none.
pub open spec fn find_char_from(s: Seq<char>, c: char, i: int) -> int
    decreases s.len() - i,
{
    if i < 0 || i >= s.len() {
        -1
    } else if s[i] == c {
        i
    } else {
        find_char_from(s, c, i + 1)
    }
}

/// Some character in `s[a..b]` is a newline.
pub open spec fn contains_nl(s: Seq<char>, a: int, b: int) -> bool {
    exists|k: int| a <= k < b && s[k] == '\n'
}

/// The text from `p` on with fenced code regions removed: each region runs
/// from a ```` ``` ```` marker to the next one, both markers removed with it;
/// an opening marker without a closing one is kept along with what follows.
pub open spec fn strip_fenced_from(s: Seq<char>, p: int) -> Seq<char>
    decreases s.len() - p,
{
    if p < 0 || p > s.len() {
        Seq::empty()
    } else {
        let i = find_triple_from(s, '`', p);
        if i >= p {
            let j = find_triple_from(s, '`', i + 3);
            if j >= i + 3 && j + 3 <= s.len() {
                s.subrange(p, i) + strip_fenced_from(s, j + 3)
            } else {
                s.skip(p)
            }
        } else {
            s.skip(p)
        }
    }
}

/// The text from `p` on with inline code spans removed: a span runs from a
/// backtick to the next backtick, with at least one character and no newline
/// between them; a backtick that opens no such span is kept.
pub open spec fn strip_inline_from(s: Seq<char>, p: int) -> Seq<char>
    decreases s.len() - p,
{
    if p < 0 || p >= s.len() {
        Seq::empty()
    } else {
        let i = find_char_from(s, '`', p);
        if i >= p && i < s.len() {
            let j = find_char_from(s, '`', i + 1);
            if j >= i + 2 && j < s.len() && !contains_nl(s, i + 1, j) {
                s.subrange(p, i) + strip_inline_from(s, j + 1)
            } else {
                s.subrange(p, i + 1) + strip_inline_from(s, i + 1)
            }
        } else {
            s.skip(p)
        }
    }
}

/// A character that may stand in a tag after its leading letter.
pub open spec fn is_tag_char(c: char) -> bool {
    ascii_alnum(c) || c == '_' || c == '-'
}

/// A tag begins at `i`: a `#`, an ASCII letter after it, and nothing
/// alphanumeric immediately before it.
pub open spec fn tag_start_at(s: Seq<char>, i: int) -> bool {
    &&& 0 <= i
    &&& i + 1 < s.len()
    &&& s[i] == '#'
    &&& ascii_letter(s[i + 1])
    &&& (i == 0 || !ascii_alnum(s[i - 1]))
}

/// Index just after the run of tag characters that starts at `j`.
pub open spec fn tag_end(s: Seq<char>, j: int) -> int
    decreases s.len() - j,
{
    if j < 0 || j >= s.len() {
        j
    } else if is_tag_char(s[j]) {
        tag_end(s, j + 1)
    } else {
        j
    }
}

/// ASCII-lowered copy of a character sequence.
pub open spec fn lower_seq(s: Seq<char>) -> Seq<char> {
    s.map_values(|c: char| ascii_lower(c))
}

/// The tags of `s` from position `i` on, lowercased, in order of appearance
/// and with repetitions.
pub open spec fn tags_from(s: Seq<char>, i: int) -> Seq<Seq<char>>
    decreases s.len() - i,
{
    if i < 0 || i >= s.len() {
        Seq::empty()
    } else if tag_start_at(s, i) {
        let e = tag_end(s, i + 1);
        if i < e && e <= s.len() {
            seq![lower_seq(s.subrange(i + 1, e))] + tags_from(s, e)
        } else {
            Seq::empty()
        }
    } else {
        tags_from(s, i + 1)
    }
}

/// The note body with both kinds of code region removed.
pub open spec fn clean_body(s: Seq<char>) -> Seq<char> {
    strip_inline_from(strip_fenced_from(s, 0), 0)
}

/// Every tag that the extractor may report for a body, with repetitions.
pub open spec fn raw_tags(s: Seq<char>) -> Seq<Seq<char>> {
    tags_from(clean_body(s), 0)
}

/// `t` occurs among the views of the strings in `ts`.
pub open spec fn has_tag(ts: Seq<String>, t: Seq<char>) -> bool {
    exists|k: int| 0 <= k < ts.len() && #[trigger] ts[k]@ == t
}

/// The strings are sorted ascending by `lex_le`.
pub open spec fn tags_sorted(ts: Seq<String>) -> bool {
    forall|a: int, b: int| 0 <= a < b < ts.len() ==> lex_le(#[trigger] ts[a]@, #[trigger] ts[b]@)
}

/// The strings are strictly ascending: sorted and free of duplicates.
pub open spec fn tags_strictly_sorted(ts: Seq<String>) -> bool {
    forall|a: int, b: int| 0 <= a < b < ts.len() ==> lex_lt(#[trigger] ts[a]@, #[trigger] ts[b]@)
}

pub(crate) fn find_triple(v: &Vec<char>, c: char, from: usize) -> (r: Option<usize>)
    ensures
        match r {
            Some(k) => from <= k && k + 3 <= v@.len() && triple_at(v@, c, k as int)
                && find_triple_from(v@, c, from as int) == k as int,
            None => find_triple_from(v@, c, from as int) == -1,
        },
{
    let n = v.len();
    if n < 3 {
        return None;
    }
    let mut i: usize = from;
    loop
        invariant
            n == v@.len(),
            n >= 3,
            from <= i,
            find_triple_from(v@, c, from as int) == find_triple_from(v@, c, i as int),
        decreases n - i,
    {
        if i > n - 3 {
            return None;
        }
        if v[i] == c && v[i + 1] == c && v[i + 2] == c {
            return Some(i);
        }
        i = i + 1;
    }
}

fn find_char(v: &Vec<char>, c: char, from: usize) -> (r: Option<usize>)
    ensures
        match r {
            Some(k) => from <= k && k < v@.len() && v@[k as int] == c
                && find_char_from(v@, c, from as int) == k as int,
            None => find_char_from(v@, c, from as int) == -1,
        },
{
    let n = v.len();
    let mut i: usize = from;
    loop
        invariant
            n == v@.len(),
            from <= i,
            find_char_from(v@, c, from as int) == find_char_from(v@, c, i as int),
        decreases n - i,
    {
        if i >= n {
            return None;
        }
        if v[i] == c {
            return Some(i);
        }
        i = i + 1;
    }
}

fn has_nl_between(v: &Vec<char>, a: usize, b: usize) -> (r: bool)
    requires
        b <= v@.len(),
    ensures
        r == contains_nl(v@, a as int, b as int),
{
    let mut i: usize = a;
    while i < b
        invariant
            a <= i,
            b <= v@.len(),
            forall|k: int| a <= k < i ==> v@[k] != '\n',
        decreases b - i,
    {
        if v[i] == '\n' {
            return true;
        }
        i = i + 1;
    }
    false
}

/// Removes every fenced code region.
fn strip_fenced_exec(v: &Vec<char>) -> (r: Vec<char>)
    ensures
        r@ == strip_fenced_from(v@, 0),
{
    let n = v.len();
    let mut out: Vec<char> = Vec::new();
    let mut p: usize = 0;
    loop
        invariant
            n == v@.len(),
            p <= n,
            strip_fenced_from(v@, 0) == out@ + strip_fenced_from(v@, p as int),
        decreases n - p,
    {
        match find_triple(v, '`', p) {
            None => {
                append_range(&mut out, v, p, n);
                proof {
                    assert(strip_fenced_from(v@, p as int) =~= v@.subrange(p as int, n as int));
                    assert(out@ =~= strip_fenced_from(v@, 0));
                }
                return out;
            },
            Some(i) => {
                match find_triple(v, '`', i + 3) {
                    None => {
                        append_range(&mut out, v, p, n);
                        proof {
                            assert(strip_fenced_from(v@, p as int) =~= v@.subrange(
                                p as int,
                                n as int,
                            ));
                            assert(out@ =~= strip_fenced_from(v@, 0));
                        }
                        return out;
                    },
                    Some(j) => {
                        append_range(&mut out, v, p, i);
                        p = j + 3;
                    },
                }
            },
        }
    }
}

/// Removes every inline code span.
fn strip_inline_exec(v: &Vec<char>) -> (r: Vec<char>)
    ensures
        r@ == strip_inline_from(v@, 0),
{
    let n = v.len();
    let mut out: Vec<char> = Vec::new();
    let mut p: usize = 0;
    loop
        invariant
            n == v@.len(),
            p <= n,
            strip_inline_from(v@, 0) == out@ + strip_inline_from(v@, p as int),
        decreases n - p,
    {
        if p >= n {
            proof {
                assert(out@ =~= strip_inline_from(v@, 0));
            }
            return out;
        }
        match find_char(v, '`', p) {
            None => {
                append_range(&mut out, v, p, n);
                proof {
                    assert(strip_inline_from(v@, p as int) =~= v@.subrange(p as int, n as int));
                    assert(out@ =~= strip_inline_from(v@, 0));
                }
                return out;
            },
            Some(i) => {
                let close = find_char(v, '`', i + 1);
                let mut matched: bool = false;
                let mut j: usize = 0;
                match close {
                    Some(jj) => {
                        if jj >= i + 2 && !has_nl_between(v, i + 1, jj) {
                            matched = true;
                            j = jj;
                        }
                    },
                    None => {},
                }
                if matched {
                    append_range(&mut out, v, p, i);
                    p = j + 1;
                } else {
                    // Either no closing backtick, an empty span, or a newline
                    // inside: the opening backtick stays and scanning goes on
                    // after it.
                    proof {
                        if close is Some {
                            let jj = close->0;
                            assert(find_char_from(v@, '`', i + 1) == jj as int);
                        }
                    }
                    append_range(&mut out, v, p, i + 1);
                    p = i + 1;
                }
            },
        }
    }
}

fn tag_end_exec(v: &Vec<char>, j: usize) -> (e: usize)
    requires
        j <= v@.len(),
    ensures
        j <= e <= v@.len(),
        e as int == tag_end(v@, j as int),
{
    let n = v.len();
    let mut i: usize = j;
    loop
        invariant
            n == v@.len(),
            j <= i <= n,
            tag_end(v@, j as int) == tag_end(v@, i as int),
        decreases n - i,
    {
        if i >= n {
            return i;
        }
        let c = v[i];
        if is_ascii_alnum(c) || c == '_' || c == '-' {
            i = i + 1;
        } else {
            return i;
        }
    }
}

/// Collects the lowercased tags of the cleaned text, in order of appearance.
fn collect_tags(v: &Vec<char>) -> (found: Vec<String>)
    ensures
        found@.map_values(|t: String| t@) == tags_from(v@, 0),
{
    let n = v.len();
    let mut found: Vec<String> = Vec::new();
    let mut i: usize = 0;
    loop
        invariant
            n == v@.len(),
            i <= n,
            tags_from(v@, 0) == found@.map_values(|t: String| t@) + tags_from(v@, i as int),
        decreases n - i,
    {
        if i >= n {
            proof {
                assert(found@.map_values(|t: String| t@) =~= tags_from(v@, 0));
            }
            return found;
        }
        let is_start = v[i] == '#' && i + 1 < n && is_ascii_letter(v[i + 1]) && (i == 0
            || !is_ascii_alnum(v[i - 1]));
        if is_start {
            proof {
                assert(tag_start_at(v@, i as int));
            }
            let e = tag_end_exec(v, i + 1);
            let mut tag_chars: Vec<char> = Vec::new();
            let mut k: usize = i + 1;
            while k < e
                invariant
                    n == v@.len(),
                    i + 1 <= k <= e <= n,
                    tag_chars@ == lower_seq(v@.subrange(i + 1 as int, k as int)),
                decreases e - k,
            {
                tag_chars.push(to_ascii_lower(v[k]));
                k = k + 1;
                proof {
                    assert(tag_chars@ =~= lower_seq(v@.subrange(i + 1 as int, k as int)));
                }
            }
            let t = string_from_chars(&tag_chars);
            found.push(t);
            proof {
                assert(found@.map_values(|t: String| t@) =~= found@.drop_last().map_values(
                    |t: String| t@,
                ) + seq![lower_seq(v@.subrange(i + 1 as int, e as int))]);
            }
            i = e;
        } else {
            i = i + 1;
        }
    }
}

proof fn lemma_seq_insert_index(s: Seq<String>, pos: int, elt: String, out: Seq<String>)
    requires
        0 <= pos <= s.len(),
        out == s.insert(pos, elt),
    ensures
        out.len() == s.len() + 1,
        forall|i: int| 0 <= i < pos ==> #[trigger] out[i] == s[i],
        forall|i: int| pos < i < out.len() ==> #[trigger] out[i] == s[i - 1],
        out[pos] == elt,
{
    s.insert_ensures(pos, elt);
    assert forall|i: int| pos < i < out.len() implies #[trigger] out[i] == s[i - 1] by {
        assert(s.insert(pos, elt)[(i - 1) + 1] == s[i - 1]);
    }
}

/// Sorts the tags ascending; keeps exactly the same set of tag texts.
fn sort_tags(v: &Vec<String>) -> (r: Vec<String>)
    ensures
        tags_sorted(r@),
        forall|t: Seq<char>| has_tag(r@, t) <==> has_tag(v@, t),
{
    let mut out: Vec<String> = Vec::new();
    let mut idx: usize = 0;
    while idx < v.len()
        invariant
            idx <= v@.len(),
            tags_sorted(out@),
            forall|t: Seq<char>| has_tag(out@, t) <==> has_tag(v@.subrange(0, idx as int), t),
        decreases v@.len() - idx,
    {
        let x = v[idx].clone();
        let mut k: usize = 0;
        while k < out.len() && str_lex_le(out[k].as_str(), x.as_str())
            invariant
                k <= out@.len(),
                forall|m: int| 0 <= m < k ==> lex_le(#[trigger] out@[m]@, x@),
            decreases out@.len() - k,
        {
            k = k + 1;
        }
        proof {
            if k < out@.len() {
                lemma_lex_total(out@[k as int]@, x@, 0);
            }
        }
        let ghost old_out = out@;
        out.insert(k, x);
        proof {
            let new_out = out@;
            assert(new_out == old_out.insert(k as int, x));
            lemma_seq_insert_index(old_out, k as int, x, new_out);
            assert forall|a: int, b: int| 0 <= a < b < new_out.len() implies lex_le(
                #[trigger] new_out[a]@,
                #[trigger] new_out[b]@,
            ) by {
                if a == k && b > k {
                    // x is at most the element it was inserted before, which
                    // is at most every later one
                    if b - 1 > k {
                        lemma_lex_trans(x@, old_out[k as int]@, old_out[b - 1]@, 0);
                    }
                }
            }
            assert forall|t: Seq<char>| has_tag(new_out, t) implies has_tag(
                v@.subrange(0, idx + 1),
                t,
            ) by {
                let w = choose|w: int| 0 <= w < new_out.len() && new_out[w]@ == t;
                if w == k {
                    assert(v@.subrange(0, idx + 1)[idx as int]@ == t);
                } else {
                    let w0 = if w < k {
                        w
                    } else {
                        w - 1
                    };
                    assert(old_out[w0]@ == t);
                    assert(has_tag(old_out, t));
                    assert(has_tag(v@.subrange(0, idx as int), t));
                    let u = choose|u: int|
                        0 <= u < idx && #[trigger] v@.subrange(0, idx as int)[u]@ == t;
                    assert(v@.subrange(0, idx + 1)[u]@ == t);
                }
            }
            assert forall|t: Seq<char>| has_tag(v@.subrange(0, idx + 1), t) implies has_tag(
                new_out,
                t,
            ) by {
                let u = choose|u: int| 0 <= u <= idx && #[trigger] v@.subrange(0, idx + 1)[u]@ == t;
                if u == idx {
                    assert(new_out[k as int]@ == t);
                } else {
                    assert(v@.subrange(0, idx as int)[u]@ == t);
                    assert(has_tag(v@.subrange(0, idx as int), t));
                    assert(has_tag(old_out, t));
                    let w = choose|w: int| 0 <= w < old_out.len() && #[trigger] old_out[w]@ == t;
                    if w < k {
                        assert(new_out[w]@ == t);
                    } else {
                        assert(new_out[w + 1]@ == t);
                    }
                }
            }
        }
        idx = idx + 1;
    }
    proof {
        assert(v@.subrange(0, v@.len() as int) =~= v@);
    }
    out
}

/// Removes duplicates from a sorted tag list; keeps the same set.
fn dedup_sorted(v: &Vec<String>) -> (r: Vec<String>)
    requires
        tags_sorted(v@),
    ensures
        tags_strictly_sorted(r@),
        forall|t: Seq<char>| has_tag(r@, t) <==> has_tag(v@, t),
{
    let mut out: Vec<String> = Vec::new();
    let mut i: usize = 0;
    while i < v.len()
        invariant
            tags_sorted(v@),
            i <= v@.len(),
            tags_strictly_sorted(out@),
            forall|t: Seq<char>| has_tag(out@, t) <==> has_tag(v@.subrange(0, i as int), t),
            out@.len() > 0 ==> i > 0 && out@.last()@ == v@[i - 1]@,
            i > 0 ==> out@.len() > 0,
        decreases v@.len() - i,
    {
        let ghost old_out = out@;
        let mut push_it: bool = true;
        if out.len() > 0 {
            if string_eq(&out[out.len() - 1], &v[i]) {
                push_it = false;
            }
        }
        if push_it {
            out.push(v[i].clone());
            proof {
                let new_out = out@;
                assert forall|a: int, b: int| 0 <= a < b < new_out.len() implies lex_lt(
                    #[trigger] new_out[a]@,
                    #[trigger] new_out[b]@,
                ) by {
                    if b == new_out.len() - 1 && old_out.len() > 0 {
                        // every earlier element is at most the old last one,
                        // which differs from the new element
                        assert(lex_le(v@[i - 1]@, v@[i as int]@));
                        if a < old_out.len() - 1 {
                            assert(lex_lt(old_out[a]@, old_out[old_out.len() - 1]@));
                            lemma_lex_trans(old_out[a]@, v@[i - 1]@, v@[i as int]@, 0);
                        }
                        if new_out[a]@ == new_out[b]@ {
                            // a duplicate of the new element would have to be
                            // the old last element, which was seen to differ
                            if a == old_out.len() - 1 {
                                assert(false);
                            } else {
                                lemma_lex_antisym_tags(old_out[a]@, v@[i - 1]@);
                            }
                        }
                    }
                }
            }
        }
        proof {
            assert forall|t: Seq<char>| has_tag(v@.subrange(0, i + 1), t) implies has_tag(out@, t) by {
                let u = choose|u: int| 0 <= u <= i && #[trigger] v@.subrange(0, i + 1)[u]@ == t;
                if u == i {
                    if push_it {
                        assert(out@[out@.len() - 1]@ == t);
                    } else {
                        assert(old_out[old_out.len() - 1]@ == v@[i as int]@);
                        assert(out@[out@.len() - 1]@ == t);
                    }
                } else {
                    assert(v@.subrange(0, i as int)[u]@ == t);
                    assert(has_tag(v@.subrange(0, i as int), t));
                    assert(has_tag(old_out, t));
                    let w = choose|w: int| 0 <= w < old_out.len() && #[trigger] old_out[w]@ == t;
                    assert(out@[w]@ == t);
                }
            }
            assert forall|t: Seq<char>| has_tag(out@, t) implies has_tag(v@.subrange(0, i + 1), t) by {
                let w = choose|w: int| 0 <= w < out@.len() && #[trigger] out@[w]@ == t;
                if push_it && w == out@.len() - 1 {
                    assert(v@.subrange(0, i + 1)[i as int]@ == t);
                } else {
                    assert(old_out[w]@ == t);
                    assert(has_tag(old_out, t));
                    assert(has_tag(v@.subrange(0, i as int), t));
                    let u = choose|u: int|
                        0 <= u < i && #[trigger] v@.subrange(0, i as int)[u]@ == t;
                    assert(v@.subrange(0, i + 1)[u]@ == t);
                }
            }
        }
        i = i + 1;
    }
    proof {
        assert(v@.subrange(0, v@.len() as int) =~= v@);
    }
    out
}

proof fn lemma_lex_antisym_tags(a: Seq<char>, b: Seq<char>)
    requires
        lex_le(a, b),
        lex_le(b, a),
    ensures
        a == b,
{
    crate::text::lemma_lex_antisym(a, b, 0);
    assert(a.skip(0) =~= a);
    assert(b.skip(0) =~= b);
}

/// Extracts the inline tags of a note body: every `#`-marked token outside
/// code regions, lowercased, sorted ascending and with duplicates removed.
pub fn extract_inline_tags(content: &str) -> (r: Vec<String>)
    ensures
        tags_strictly_sorted(r@),
        forall|t: Seq<char>| has_tag(r@, t) <==> raw_tags(content@).contains(t),
{
    let v = chars_of(content);
    let v = strip_fenced_exec(&v);
    let v = strip_inline_exec(&v);
    let found = collect_tags(&v);
    let sorted = sort_tags(&found);
    let r = dedup_sorted(&sorted);
    proof {
        let raw = raw_tags(content@);
        assert(found@.map_values(|t: String| t@) == raw);
        assert forall|t: Seq<char>| has_tag(found@, t) implies raw.contains(t) by {
            let k = choose|k: int| 0 <= k < found@.len() && #[trigger] found@[k]@ == t;
            assert(raw[k] == t);
        }
        assert forall|t: Seq<char>| raw.contains(t) implies has_tag(found@, t) by {
            let k = choose|k: int| 0 <= k < raw.len() && raw[k] == t;
            assert(found@[k]@ == t);
        }
    }
    r
}

} // verus!
