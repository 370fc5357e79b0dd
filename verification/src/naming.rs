//! Naming rules: slugs for note file names, collision-free candidate names,
//! tag sanitization, attachments directory names, path components and the
//! path-safety check that keeps resolved paths inside the notes root.

use vstd::prelude::*;

use crate::model::string_views;
use crate::text::chars_of;
use crate::text::is_alphanumeric_char;
use crate::text::lower_of;
use crate::text::lowercase;
use crate::text::string_from_chars;
use crate::text::unicode_alphanumeric;
use crate::cache::contains_string;

verus! {

/// A character that may stay in a sanitized tag.
pub open spec fn keep_tag_char(c: char) -> bool {
    unicode_alphanumeric(c) || c == '-' || c == '_' || c == '/'
}

/// The characters of `s` that a sanitized tag keeps, in order.
pub open spec fn filtered_tag(s: Seq<char>) -> Seq<char>
    decreases s.len(),
{
    if s.len() == 0 {
        Seq::empty()
    } else {
        let rest = filtered_tag(s.drop_last());
        if keep_tag_char(s.last()) {
            rest.push(s.last())
        } else {
            rest
        }
    }
}

/// A character stripped from the ends of a sanitized tag.
pub open spec fn is_trim_mark(c: char) -> bool {
    c == '-' || c == '_'
}

/// Index of the first character at or after `i` that is no trim mark.
pub open spec fn mark_start_idx(s: Seq<char>, i: int) -> int
    decreases s.len() - i,
{
    if i < 0 || i >= s.len() {
        i
    } else if is_trim_mark(s[i]) {
        mark_start_idx(s, i + 1)
    } else {
        i
    }
}

/// Index just after the last character at or before `j - 1` that is no trim
/// mark.
pub open spec fn mark_end_idx(s: Seq<char>, j: int) -> int
    decreases j,
{
    if j <= 0 || j > s.len() {
        j
    } else if is_trim_mark(s[j - 1]) {
        mark_end_idx(s, j - 1)
    } else {
        j
    }
}

/// The sanitized form of a tag: only alphanumerics, `-`, `_` and `/` are
/// kept, and `-` and `_` are stripped from both ends.
pub open spec fn spec_sanitize_tag(s: Seq<char>) -> Seq<char> {
    let f = filtered_tag(s);
    let a = mark_start_idx(f, 0);
    let b = mark_end_idx(f, f.len() as int);
    if a <= b {
        f.subrange(a, b)
    } else {
        Seq::empty()
    }
}

/// The sanitized forms of a tag list, with tags that sanitize to nothing
/// dropped.
pub open spec fn spec_sanitize_tags(ts: Seq<Seq<char>>) -> Seq<Seq<char>>
    decreases ts.len(),
{
    if ts.len() == 0 {
        Seq::empty()
    } else {
        let rest = spec_sanitize_tags(ts.drop_last());
        if spec_sanitize_tag(ts.last()).len() > 0 {
            rest.push(spec_sanitize_tag(ts.last()))
        } else {
            rest
        }
    }
}

proof fn lemma_mark_start_bounds(s: Seq<char>, i: int)
    requires
        0 <= i <= s.len(),
    ensures
        i <= mark_start_idx(s, i) <= s.len(),
    decreases s.len() - i,
{
    if i < s.len() && is_trim_mark(s[i]) {
        lemma_mark_start_bounds(s, i + 1);
    }
}

proof fn lemma_mark_end_bounds(s: Seq<char>, j: int)
    requires
        0 <= j <= s.len(),
    ensures
        0 <= mark_end_idx(s, j) <= j,
    decreases j,
{
    if j > 0 && is_trim_mark(s[j - 1]) {
        lemma_mark_end_bounds(s, j - 1);
    }
}

fn is_trim_mark_exec(c: char) -> (r: bool)
    ensures
        r == is_trim_mark(c),
{
    c == '-' || c == '_'
}

/// Sanitizes a single tag to its safe characters.
pub fn sanitize_tag(tag: &str) -> (r: String)
    ensures
        r@ == spec_sanitize_tag(tag@),
{
    let v = chars_of(tag);
    let n = v.len();
    let mut f: Vec<char> = Vec::new();
    let mut i: usize = 0;
    while i < n
        invariant
            n == v@.len(),
            i <= n,
            f@ == filtered_tag(v@.subrange(0, i as int)),
        decreases n - i,
    {
        let ghost prefix1 = v@.subrange(0, i + 1);
        proof {
            assert(prefix1.drop_last() =~= v@.subrange(0, i as int));
            assert(prefix1.last() == v@[i as int]);
        }
        let c = v[i];
        if is_alphanumeric_char(c) || c == '-' || c == '_' || c == '/' {
            f.push(c);
        }
        i = i + 1;
    }
    proof {
        assert(v@.subrange(0, n as int) =~= v@);
    }
    let m = f.len();
    let mut a: usize = 0;
    while a < m && is_trim_mark_exec(f[a])
        invariant
            m == f@.len(),
            a <= m,
            mark_start_idx(f@, 0) == mark_start_idx(f@, a as int),
        decreases m - a,
    {
        a = a + 1;
    }
    proof {
        lemma_mark_start_bounds(f@, a as int);
        assert(mark_start_idx(f@, a as int) == a as int);
    }
    let mut b: usize = m;
    while b > 0 && is_trim_mark_exec(f[b - 1])
        invariant
            m == f@.len(),
            b <= m,
            mark_end_idx(f@, m as int) == mark_end_idx(f@, b as int),
        decreases b,
    {
        b = b - 1;
    }
    proof {
        lemma_mark_end_bounds(f@, b as int);
        assert(mark_end_idx(f@, b as int) == b as int);
    }
    let mut out: Vec<char> = Vec::new();
    if a < b {
        let mut i: usize = a;
        while i < b
            invariant
                a <= i <= b <= m,
                m == f@.len(),
                out@ == f@.subrange(a as int, i as int),
            decreases b - i,
        {
            out.push(f[i]);
            i = i + 1;
            proof {
                assert(out@ =~= f@.subrange(a as int, i as int));
            }
        }
    }
    proof {
        assert(out@ =~= spec_sanitize_tag(tag@));
    }
    string_from_chars(&out)
}

/// Sanitizes a tag list, dropping tags that sanitize to nothing.
pub fn sanitize_tags(tags: &Vec<String>) -> (r: Vec<String>)
    ensures
        string_views(r@) == spec_sanitize_tags(string_views(tags@)),
{
    let mut r: Vec<String> = Vec::new();
    let mut i: usize = 0;
    while i < tags.len()
        invariant
            i <= tags@.len(),
            string_views(r@) == spec_sanitize_tags(string_views(tags@.subrange(0, i as int))),
        decreases tags@.len() - i,
    {
        let ghost prefix1 = string_views(tags@.subrange(0, i + 1));
        proof {
            assert(prefix1.drop_last() =~= string_views(tags@.subrange(0, i as int)));
            assert(prefix1.last() == tags@[i as int]@);
        }
        let t = sanitize_tag(tags[i].as_str());
        if t.as_str().unicode_len() > 0 {
            r.push(t);
            proof {
                assert(string_views(r@) =~= spec_sanitize_tags(
                    string_views(tags@.subrange(0, i as int)),
                ).push(spec_sanitize_tag(tags@[i as int]@)));
            }
        }
        i = i + 1;
    }
    proof {
        assert(tags@.subrange(0, tags@.len() as int) =~= tags@);
    }
    r
}

/// One step of slug building, from position `i` on: alphanumerics are kept,
/// runs of anything else become one `-`, and no `-` stands at either end.
pub open spec fn slug_from(s: Seq<char>, i: int, started: bool, pending: bool) -> Seq<char>
    decreases s.len() - i,
{
    if i < 0 || i >= s.len() {
        Seq::empty()
    } else if unicode_alphanumeric(s[i]) {
        (if started && pending {
            seq!['-', s[i]]
        } else {
            seq![s[i]]
        }) + slug_from(s, i + 1, true, false)
    } else {
        slug_from(s, i + 1, started, started)
    }
}

/// The slug of a lowercased title.
pub open spec fn slug_of(s: Seq<char>) -> Seq<char> {
    slug_from(s, 0, false, false)
}

/// Turns a title into a file-name slug: lowercased, alphanumeric runs kept,
/// everything between them collapsed to single hyphens.
pub fn slugify(title: &str) -> (r: String)
    ensures
        r@ == slug_of(lower_of(title@)),
{
    let low = lowercase(title);
    let v = chars_of(low.as_str());
    let n = v.len();
    let mut out: Vec<char> = Vec::new();
    let mut started: bool = false;
    let mut pending: bool = false;
    let mut i: usize = 0;
    while i < n
        invariant
            n == v@.len(),
            i <= n,
            slug_of(v@) == out@ + slug_from(v@, i as int, started, pending),
        decreases n - i,
    {
        let c = v[i];
        if is_alphanumeric_char(c) {
            if started && pending {
                out.push('-');
            }
            out.push(c);
            started = true;
            pending = false;
        } else {
            pending = started;
        }
        i = i + 1;
        proof {
            assert(slug_of(v@) =~= out@ + slug_from(v@, i as int, started, pending));
        }
    }
    proof {
        assert(out@ =~= slug_of(lower_of(title@)));
    }
    string_from_chars(&out)
}

/// The character for one decimal digit.
pub open spec fn digit_char(d: nat) -> char {
    if d == 0 {
        '0'
    } else if d == 1 {
        '1'
    } else if d == 2 {
        '2'
    } else if d == 3 {
        '3'
    } else if d == 4 {
        '4'
    } else if d == 5 {
        '5'
    } else if d == 6 {
        '6'
    } else if d == 7 {
        '7'
    } else if d == 8 {
        '8'
    } else {
        '9'
    }
}

/// The decimal digits of `n`, most significant first.
pub open spec fn dec_digits(n: nat) -> Seq<char>
    decreases n,
{
    if n < 10 {
        seq![digit_char(n)]
    } else {
        dec_digits(n / 10).push(digit_char(n % 10))
    }
}

fn dec_digit_exec(n: u64) -> (c: char)
    requires
        n < 10,
    ensures
        c == digit_char(n as nat),
{
    match n {
        0 => '0',
        1 => '1',
        2 => '2',
        3 => '3',
        4 => '4',
        5 => '5',
        6 => '6',
        7 => '7',
        8 => '8',
        _ => '9',
    }
}

/// Renders `n` in decimal.
pub fn dec_string(n: u64) -> (r: Vec<char>)
    ensures
        r@ == dec_digits(n as nat),
    decreases n,
{
    if n < 10 {
        let mut r: Vec<char> = Vec::new();
        r.push(dec_digit_exec(n));
        proof {
            assert(r@ =~= dec_digits(n as nat));
        }
        r
    } else {
        let mut r = dec_string(n / 10);
        r.push(dec_digit_exec(n % 10));
        r
    }
}

/// The suffix of note file names.
pub open spec fn md_suffix() -> Seq<char> {
    seq!['.', 'm', 'd']
}

/// The suffix of attachments directory names.
pub open spec fn attachments_suffix() -> Seq<char> {
    seq!['.', 'a', 't', 't', 'a', 'c', 'h', 'm', 'e', 'n', 't', 's']
}

/// The `k`-th candidate file name for a slug: `slug.md`, then `slug-1.md`,
/// `slug-2.md` and so on.
pub open spec fn candidate_name(slug: Seq<char>, k: int) -> Seq<char> {
    if k == 0 {
        slug + md_suffix()
    } else {
        slug.push('-') + dec_digits(k as nat) + md_suffix()
    }
}

/// Builds the `k`-th candidate file name.
pub fn candidate_filename(slug: &str, k: u64) -> (r: String)
    ensures
        r@ == candidate_name(slug@, k as int),
{
    let mut v = chars_of(slug);
    if k > 0 {
        v.push('-');
        let digits = dec_string(k);
        let mut i: usize = 0;
        while i < digits.len()
            invariant
                i <= digits@.len(),
                v@ == slug@.push('-') + digits@.subrange(0, i as int),
            decreases digits@.len() - i,
        {
            v.push(digits[i]);
            i = i + 1;
            proof {
                assert(v@ =~= slug@.push('-') + digits@.subrange(0, i as int));
            }
        }
        proof {
            assert(digits@.subrange(0, digits@.len() as int) =~= digits@);
        }
    }
    v.push('.');
    v.push('m');
    v.push('d');
    proof {
        assert(v@ =~= candidate_name(slug@, k as int));
    }
    string_from_chars(&v)
}

proof fn lemma_dec_digits_len(n: nat)
    ensures
        dec_digits(n).len() >= 1,
        n >= 10 ==> dec_digits(n).len() >= 2,
    decreases n,
{
    if n >= 10 {
        lemma_dec_digits_len(n / 10);
    }
}

proof fn lemma_digit_char_injective(d1: nat, d2: nat)
    requires
        d1 < 10,
        d2 < 10,
        digit_char(d1) == digit_char(d2),
    ensures
        d1 == d2,
{
}

proof fn lemma_dec_digits_injective(a: nat, b: nat)
    requires
        dec_digits(a) == dec_digits(b),
    ensures
        a == b,
    decreases a,
{
    lemma_dec_digits_len(a);
    lemma_dec_digits_len(b);
    if a < 10 && b < 10 {
        assert(dec_digits(a)[0] == digit_char(a));
        assert(dec_digits(b)[0] == digit_char(b));
        lemma_digit_char_injective(a, b);
    } else if a < 10 {
        assert(dec_digits(a).len() == 1);
        assert(dec_digits(b).len() >= 2);
    } else if b < 10 {
        assert(dec_digits(b).len() == 1);
        assert(dec_digits(a).len() >= 2);
    } else {
        assert(dec_digits(a).last() == digit_char(a % 10));
        assert(dec_digits(b).last() == digit_char(b % 10));
        lemma_digit_char_injective(a % 10, b % 10);
        assert(dec_digits(a).drop_last() =~= dec_digits(a / 10));
        assert(dec_digits(b).drop_last() =~= dec_digits(b / 10));
        lemma_dec_digits_injective(a / 10, b / 10);
    }
}

/// Candidate file names never collide: distinct indices give distinct names.
pub proof fn lemma_candidate_name_injective(slug: Seq<char>, k1: int, k2: int)
    requires
        0 <= k1 < k2,
    ensures
        candidate_name(slug, k1) != candidate_name(slug, k2),
{
    let c1 = candidate_name(slug, k1);
    let c2 = candidate_name(slug, k2);
    lemma_dec_digits_len(k2 as nat);
    if k1 == 0 {
        assert(c1.len() == slug.len() + 3);
        assert(c2.len() == slug.len() + 1 + dec_digits(k2 as nat).len() + 3);
    } else {
        lemma_dec_digits_len(k1 as nat);
        if c1 == c2 {
            let d1 = dec_digits(k1 as nat);
            let d2 = dec_digits(k2 as nat);
            assert(c1.len() == slug.len() + 1 + d1.len() + 3);
            assert(c2.len() == slug.len() + 1 + d2.len() + 3);
            assert(d1.len() == d2.len());
            assert(d1 =~= d2) by {
                assert forall|i: int| 0 <= i < d1.len() implies d1[i] == d2[i] by {
                    assert(c1[slug.len() + 1 + i] == d1[i]);
                    assert(c2[slug.len() + 1 + i] == d2[i]);
                }
            }
            lemma_dec_digits_injective(k1 as nat, k2 as nat);
            assert(false);
        }
    }
}

/// More candidate names than taken names: when every candidate up to `m` is
/// taken, the taken list holds more than `m` names.
proof fn lemma_candidates_pigeonhole(slug: Seq<char>, taken: Seq<Seq<char>>, m: int)
    requires
        0 <= m,
        forall|k: int| 0 <= k <= m ==> taken.contains(#[trigger] candidate_name(slug, k)),
    ensures
        m < taken.len(),
    decreases m,
{
    if m == 0 {
        assert(taken.contains(candidate_name(slug, 0)));
    } else {
        let cm = candidate_name(slug, m);
        assert(taken.contains(cm));
        let j = choose|j: int| 0 <= j < taken.len() && taken[j] == cm;
        let rest = taken.remove(j);
        taken.remove_ensures(j);
        assert forall|k: int| 0 <= k <= m - 1 implies rest.contains(
            #[trigger] candidate_name(slug, k),
        ) by {
            let ck = candidate_name(slug, k);
            assert(taken.contains(ck));
            let i = choose|i: int| 0 <= i < taken.len() && taken[i] == ck;
            lemma_candidate_name_injective(slug, k, m);
            assert(i != j);
            if i < j {
                assert(rest[i] == ck);
            } else {
                assert(rest[i - 1] == ck);
            }
        }
        lemma_candidates_pigeonhole(slug, rest, m - 1);
    }
}

/// The first candidate index, from `k` up to `bound`, whose name is not
/// taken; `bound` itself when every one below it is taken.
pub open spec fn first_free(slug: Seq<char>, taken: Seq<Seq<char>>, k: int, bound: int) -> int
    decreases bound - k,
{
    if k < 0 || k >= bound {
        k
    } else if !taken.contains(candidate_name(slug, k)) {
        k
    } else {
        first_free(slug, taken, k + 1, bound)
    }
}

/// Picks the first candidate file name for `slug` that is not among `taken`:
/// `slug.md` when free, otherwise `slug-1.md`, `slug-2.md` and so on.  With
/// more candidates probed than names taken, the fallback index is never
/// reached in practice.
pub fn choose_free_filename(slug: &str, taken: &Vec<String>) -> (r: String)
    requires
        taken@.len() < usize::MAX,
    ensures
        ({
            let kk = first_free(slug@, string_views(taken@), 0, taken@.len() as int + 1);
            &&& r@ == candidate_name(slug@, kk)
            &&& 0 <= kk <= taken@.len() as int
            &&& !string_views(taken@).contains(r@)
            &&& forall|j: int|
                0 <= j < kk ==> string_views(taken@).contains(#[trigger] candidate_name(slug@, j))
        }),
{
    let n = taken.len();
    let mut k: usize = 0;
    loop
        invariant
            n == taken@.len(),
            n < usize::MAX,
            k <= n + 1,
            first_free(slug@, string_views(taken@), 0, n + 1) == first_free(
                slug@,
                string_views(taken@),
                k as int,
                n + 1,
            ),
            forall|j: int|
                0 <= j < k ==> string_views(taken@).contains(#[trigger] candidate_name(slug@, j)),
        decreases n + 1 - k,
    {
        let cand = candidate_filename(slug, k as u64);
        if k > n {
            // every candidate below was taken, yet there are more candidates
            // than taken names
            proof {
                lemma_candidates_pigeonhole(slug@, string_views(taken@), n as int);
                assert(false);
            }
            return cand;
        }
        if !contains_string(taken, &cand) {
            return cand;
        }
        k = k + 1;
    }
}

/// The attachments directory name beside a note: its stem plus the
/// attachments suffix.
pub fn attachments_name(stem: &str) -> (r: String)
    ensures
        r@ == stem@ + attachments_suffix(),
{
    let mut v = chars_of(stem);
    v.push('.');
    v.push('a');
    v.push('t');
    v.push('t');
    v.push('a');
    v.push('c');
    v.push('h');
    v.push('m');
    v.push('e');
    v.push('n');
    v.push('t');
    v.push('s');
    proof {
        assert(v@ =~= stem@ + attachments_suffix());
    }
    string_from_chars(&v)
}

/// Index of the last occurrence of `c` strictly below `j`, or -1.
pub open spec fn last_idx_of(s: Seq<char>, c: char, j: int) -> int
    decreases j,
{
    if j <= 0 || j > s.len() {
        -1
    } else if s[j - 1] == c {
        j - 1
    } else {
        last_idx_of(s, c, j - 1)
    }
}

/// The final component of a path: everything after the last `/`.
pub open spec fn file_name_of(p: Seq<char>) -> Seq<char> {
    p.subrange(last_idx_of(p, '/', p.len() as int) + 1, p.len() as int)
}

/// The stem of a file name: the name without its extension; a leading dot
/// starts no extension.
pub open spec fn stem_of(name: Seq<char>) -> Seq<char> {
    let d = last_idx_of(name, '.', name.len() as int);
    if d > 0 {
        name.subrange(0, d)
    } else {
        name
    }
}

proof fn lemma_last_idx_bounds(s: Seq<char>, c: char, j: int)
    requires
        0 <= j <= s.len(),
    ensures
        -1 <= last_idx_of(s, c, j) < j,
    decreases j,
{
    if j > 0 && s[j - 1] != c {
        lemma_last_idx_bounds(s, c, j - 1);
    }
}

fn find_last(v: &Vec<char>, c: char) -> (r: Option<usize>)
    ensures
        match r {
            Option::Some(i) => i < v@.len() && last_idx_of(v@, c, v@.len() as int) == i as int,
            Option::None => last_idx_of(v@, c, v@.len() as int) == -1,
        },
{
    let n = v.len();
    let mut j: usize = n;
    loop
        invariant
            n == v@.len(),
            j <= n,
            last_idx_of(v@, c, n as int) == last_idx_of(v@, c, j as int),
        decreases j,
    {
        if j == 0 {
            return Option::None;
        }
        if v[j - 1] == c {
            return Option::Some(j - 1);
        }
        j = j - 1;
    }
}

/// The final component of a path.
pub fn file_name(path: &str) -> (r: String)
    ensures
        r@ == file_name_of(path@),
{
    let v = chars_of(path);
    let n = v.len();
    let start: usize = match find_last(&v, '/') {
        Option::Some(i) => i + 1,
        Option::None => 0,
    };
    proof {
        lemma_last_idx_bounds(v@, '/', n as int);
    }
    let mut out: Vec<char> = Vec::new();
    let mut i: usize = start;
    while i < n
        invariant
            start <= i <= n,
            n == v@.len(),
            out@ == v@.subrange(start as int, i as int),
        decreases n - i,
    {
        out.push(v[i]);
        i = i + 1;
        proof {
            assert(out@ =~= v@.subrange(start as int, i as int));
        }
    }
    proof {
        assert(out@ =~= file_name_of(path@));
    }
    string_from_chars(&out)
}

/// The stem of a file name.
pub fn file_stem(name: &str) -> (r: String)
    ensures
        r@ == stem_of(name@),
{
    let v = chars_of(name);
    let n = v.len();
    let end: usize = match find_last(&v, '.') {
        Option::Some(i) => {
            if i > 0 {
                i
            } else {
                n
            }
        },
        Option::None => n,
    };
    proof {
        lemma_last_idx_bounds(v@, '.', n as int);
    }
    let mut out: Vec<char> = Vec::new();
    let mut i: usize = 0;
    while i < end
        invariant
            i <= end <= n,
            n == v@.len(),
            out@ == v@.subrange(0, i as int),
        decreases end - i,
    {
        out.push(v[i]);
        i = i + 1;
        proof {
            assert(out@ =~= v@.subrange(0, i as int));
        }
    }
    proof {
        assert(out@ =~= stem_of(name@));
    }
    string_from_chars(&out)
}

/// A note file: its final component ends in `.md` with a non-empty stem.
pub open spec fn is_note_path(p: Seq<char>) -> bool {
    let name = file_name_of(p);
    name.len() > 3 && name.subrange(name.len() - 3, name.len() as int) == md_suffix()
}

/// Whether `path` names a note file.
pub fn path_is_note_file(path: &str) -> (r: bool)
    ensures
        r == is_note_path(path@),
{
    let name = file_name(path);
    let v = chars_of(name.as_str());
    let n = v.len();
    if n <= 3 {
        return false;
    }
    let r = v[n - 3] == '.' && v[n - 2] == 'm' && v[n - 1] == 'd';
    proof {
        if r {
            assert(name@.subrange(name@.len() - 3, name@.len() as int) =~= md_suffix());
        } else {
            if name@.subrange(name@.len() - 3, name@.len() as int) =~= md_suffix() {
                assert(name@[name@.len() - 3] == '.');
                assert(name@[name@.len() - 2] == 'm');
                assert(name@[name@.len() - 1] == 'd');
            }
        }
    }
    r
}

/// A resolved path lies within a resolved base: it is the base itself, or
/// the base followed by a path separator.
pub open spec fn within_base(p: Seq<char>, b: Seq<char>) -> bool {
    p == b || (b.len() < p.len() && p.subrange(0, b.len() as int) == b && (b.len() > 0 && b[b.len()
        - 1] == '/' || p[b.len() as int] == '/'))
}

/// Path-safety check: both arguments must already be canonical (symlinks
/// resolved).  True exactly when `path` is `base` or lies below it.
pub fn validate_path_within_base(path: &str, base: &str) -> (r: bool)
    ensures
        r == within_base(path@, base@),
{
    let pv = chars_of(path);
    let bv = chars_of(base);
    let np = pv.len();
    let nb = bv.len();
    if np < nb {
        proof {
            assert(path@ != base@);
            assert(!within_base(path@, base@));
        }
        return false;
    }
    let mut i: usize = 0;
    while i < nb
        invariant
            np == pv@.len(),
            nb == bv@.len(),
            pv@ == path@,
            bv@ == base@,
            nb <= np,
            i <= nb,
            forall|j: int| 0 <= j < i ==> pv@[j] == bv@[j],
        decreases nb - i,
    {
        if pv[i] != bv[i] {
            proof {
                assert(pv@[i as int] != bv@[i as int]);
                assert(path@[i as int] != base@[i as int]);
                if path@ == base@ {
                    assert(path@[i as int] == base@[i as int]);
                    assert(false);
                }
                if nb < np && path@.subrange(0, nb as int) == base@ {
                    assert(path@.subrange(0, nb as int)[i as int] == path@[i as int]);
                    assert(path@.subrange(0, nb as int)[i as int] == base@[i as int]);
                    assert(false);
                }
            }
            return false;
        }
        i = i + 1;
    }
    if np == nb {
        proof {
            assert(path@ =~= base@);
        }
        return true;
    }
    proof {
        assert(path@.subrange(0, nb as int) =~= base@);
    }
    let r = (nb > 0 && bv[nb - 1] == '/') || pv[nb] == '/';
    r
}

} // verus!
