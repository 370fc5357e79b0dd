//! Framing of note files: a header block between two `---` markers, a blank
//! line, and the body.  What stands inside the header block is for the
//! header parser; this module only cuts the file apart and puts it back
//! together.

use vstd::prelude::*;

use crate::tags::find_triple;
use crate::tags::find_triple_from;
use crate::text::append_range;
use crate::text::chars_of;
use crate::text::spec_trim;
use crate::text::string_from_chars;
use crate::text::trim_chars;
use vstd::string::StringExecFns;

verus! {

/// Where the header block of a note file sits: the text between the first
/// two `---` markers.
pub open spec fn header_bounds(s: Seq<char>) -> (int, int) {
    let d1 = find_triple_from(s, '-', 0);
    let d2 = if d1 >= 0 {
        find_triple_from(s, '-', d1 + 3)
    } else {
        -1
    };
    (d1, d2)
}

/// A note file is well-framed when both `---` markers are present.
pub open spec fn well_framed(s: Seq<char>) -> bool {
    header_bounds(s).0 >= 0 && header_bounds(s).1 >= 0
}

/// The trimmed header text of a well-framed file.
pub open spec fn header_text(s: Seq<char>) -> Seq<char> {
    let (d1, d2) = header_bounds(s);
    spec_trim(s.subrange(d1 + 3, d2))
}

/// The trimmed body text of a well-framed file.
pub open spec fn body_text(s: Seq<char>) -> Seq<char> {
    let (d1, d2) = header_bounds(s);
    spec_trim(s.subrange(d2 + 3, s.len() as int))
}

/// Splits a note file into its header text and its body, both trimmed.
/// Fails exactly when the file has no complete header block.
pub fn split_frontmatter(content: &str) -> (r: Result<(String, String), String>)
    ensures
        match r {
            Result::Ok(parts) => well_framed(content@) && parts.0@ == header_text(content@)
                && parts.1@ == body_text(content@),
            Result::Err(e) => !well_framed(content@) && e@ == "Invalid note format: missing frontmatter"@,
        },
{
    let v = chars_of(content);
    let n = v.len();
    let d1 = match find_triple(&v, '-', 0) {
        Option::Some(i) => i,
        Option::None => {
            return Result::Err(String::from_str("Invalid note format: missing frontmatter"));
        },
    };
    let d2 = match find_triple(&v, '-', d1 + 3) {
        Option::Some(i) => i,
        Option::None => {
            return Result::Err(String::from_str("Invalid note format: missing frontmatter"));
        },
    };
    let mut header: Vec<char> = Vec::new();
    append_range(&mut header, &v, d1 + 3, d2);
    let header = trim_chars(&header);
    let mut body: Vec<char> = Vec::new();
    append_range(&mut body, &v, d2 + 3, n);
    let body = trim_chars(&body);
    proof {
        assert(header@ == header_text(content@));
        assert(body@ == body_text(content@));
    }
    Result::Ok((string_from_chars(&header), string_from_chars(&body)))
}

/// The byte layout of a serialized note: a `---` line, the header text, a
/// `---` line, a blank line, and the body.
pub open spec fn frame_of(header: Seq<char>, body: Seq<char>) -> Seq<char> {
    seq!['-', '-', '-', '\n'] + header + seq!['-', '-', '-', '\n', '\n'] + body
}

/// Lays a serialized header and a body out as a note file.  The header text
/// is expected to end with its own newline, as header serializers produce.
pub fn frame_note(header: &str, body: &str) -> (r: String)
    ensures
        r@ == frame_of(header@, body@),
{
    let hv = chars_of(header);
    let bv = chars_of(body);
    let mut v: Vec<char> = Vec::new();
    v.push('-');
    v.push('-');
    v.push('-');
    v.push('\n');
    append_range(&mut v, &hv, 0, hv.len());
    v.push('-');
    v.push('-');
    v.push('-');
    v.push('\n');
    v.push('\n');
    append_range(&mut v, &bv, 0, bv.len());
    proof {
        assert(hv@.subrange(0, hv@.len() as int) =~= header@);
        assert(bv@.subrange(0, bv@.len() as int) =~= body@);
        assert(v@ =~= frame_of(header@, body@));
    }
    string_from_chars(&v)
}

} // verus!
