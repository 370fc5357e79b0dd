//! Content fingerprinting for change detection.
//!
//! The fingerprint of a note file is the lowercase hexadecimal form of the
//! SHA-256 digest of its raw bytes.  It serves as an auxiliary signal for
//! detecting no-op writes; staleness decisions go by modification time alone.

use vstd::prelude::*;

use vstd::string::StringSliceAdditionalSpecFns;

use sha2::Digest;

verus! {

/// The SHA-256 digest of a byte sequence: a function of the bytes alone.
pub uninterp spec fn spec_sha256(data: Seq<u8>) -> Seq<u8>;

/// Relies on `sha2::Sha256` through `Digest::digest`: a 32-byte digest that
/// depends on the input bytes alone.
#[verifier::external_body]
fn sha256_digest(data: &[u8]) -> (r: Vec<u8>)
    ensures
        r@ == spec_sha256(data@),
        r@.len() == 32,
{
    sha2::Sha256::digest(data).to_vec()
}

/// The lowercase hexadecimal character for a value below 16.
pub open spec fn hex_char(n: u8) -> char {
    if n < 10 {
        (('0' as u32) + (n as u32)) as char
    } else {
        (('a' as u32) + ((n - 10) as u32)) as char
    }
}

/// Lowercase hexadecimal rendering of the bytes from position `i` on, two
/// characters for each byte, high nibble first.
pub open spec fn to_hex_from(data: Seq<u8>, i: int) -> Seq<char>
    decreases data.len() - i,
{
    if i < 0 || i >= data.len() {
        Seq::empty()
    } else {
        seq![hex_char(data[i] / 16), hex_char(data[i] % 16)] + to_hex_from(data, i + 1)
    }
}

/// The fingerprint of a byte sequence: its SHA-256 digest in lowercase hex.
pub open spec fn fingerprint_of(data: Seq<u8>) -> Seq<char> {
    to_hex_from(spec_sha256(data), 0)
}

proof fn lemma_to_hex_len(data: Seq<u8>, i: int)
    requires
        0 <= i <= data.len(),
    ensures
        to_hex_from(data, i).len() == 2 * (data.len() - i),
    decreases data.len() - i,
{
    if i < data.len() {
        lemma_to_hex_len(data, i + 1);
    }
}

fn hex_char_exec(n: u8) -> (c: char)
    requires
        n < 16,
    ensures
        c == hex_char(n),
{
    let c: char = match n {
        0 => '0',
        1 => '1',
        2 => '2',
        3 => '3',
        4 => '4',
        5 => '5',
        6 => '6',
        7 => '7',
        8 => '8',
        9 => '9',
        10 => 'a',
        11 => 'b',
        12 => 'c',
        13 => 'd',
        14 => 'e',
        _ => 'f',
    };
    c
}

fn to_hex(data: &Vec<u8>) -> (r: Vec<char>)
    ensures
        r@ == to_hex_from(data@, 0),
{
    let n = data.len();
    let mut r: Vec<char> = Vec::new();
    let mut i: usize = 0;
    while i < n
        invariant
            n == data@.len(),
            i <= n,
            to_hex_from(data@, 0) == r@ + to_hex_from(data@, i as int),
        decreases n - i,
    {
        let b = data[i];
        r.push(hex_char_exec(b / 16));
        r.push(hex_char_exec(b % 16));
        i = i + 1;
    }
    proof {
        assert(r@ =~= to_hex_from(data@, 0));
    }
    r
}

/// Computes the content fingerprint of a note file's text.
pub fn compute_content_hash(content: &str) -> (r: String)
    ensures
        r@ == fingerprint_of(content.spec_bytes()),
        r@.len() == 64,
{
    let bytes = content.as_bytes();
    let mut owned: Vec<u8> = Vec::new();
    owned.extend_from_slice(bytes);
    proof {
        assert(owned@ =~= content.spec_bytes());
    }
    let digest = sha256_digest(owned.as_slice());
    let hex = to_hex(&digest);
    proof {
        lemma_to_hex_len(digest@, 0);
    }
    crate::text::string_from_chars(&hex)
}

/// The fingerprint is a function of the content alone: equal byte sequences
/// always carry equal fingerprints, so two fingerprints that differ can only
/// come from contents that differ.
pub proof fn lemma_fingerprint_deterministic(a: Seq<u8>, b: Seq<u8>)
    requires
        a == b,
    ensures
        fingerprint_of(a) == fingerprint_of(b),
{
}

} // verus!
