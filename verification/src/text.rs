//! Fixed-width and length-prefixed text fields.
//!
//! Serial numbers, frame ids and field names arrive as raw bytes, padded with
//! trailing NUL characters. They are decoded leniently (invalid UTF-8 becomes
//! U+FFFD) and the padding is stripped.
use vstd::prelude::*;
use vstd::utf8::{decode_utf8, valid_utf8};

verus! {

/// The characters that `String::from_utf8_lossy` produces for `bytes`.
pub uninterp spec fn utf8_lossy(bytes: Seq<u8>) -> Seq<char>;

/// `String::from_utf8_lossy` of std, made owned. Its result is the lossy
/// decoding of the bytes, which is the plain UTF-8 decoding where the bytes
/// are valid UTF-8 (std returns the input unchanged in that case).
#[verifier::external_body]
fn decode_utf8_lossy(bytes: &[u8]) -> (s: String)
    ensures
        s@ == utf8_lossy(bytes@),
        valid_utf8(bytes@) ==> s@ == decode_utf8(bytes@),
{
    String::from_utf8_lossy(bytes).into_owned()
}

/// `s` with every trailing NUL character removed.
pub open spec fn trim_trailing_nul(s: Seq<char>) -> Seq<char>
    decreases s.len(),
{
    if s.len() > 0 && s.last() == '\0' {
        trim_trailing_nul(s.drop_last())
    } else {
        s
    }
}

/// The text a NUL-padded byte field stands for.
pub open spec fn padded_text(bytes: Seq<u8>) -> Seq<char> {
    trim_trailing_nul(utf8_lossy(bytes))
}

proof fn lemma_trim_step(s: Seq<char>, n: int)
    requires
        0 < n <= s.len(),
        s[n - 1] == '\0',
    ensures
        trim_trailing_nul(s.subrange(0, n)) == trim_trailing_nul(s.subrange(0, n - 1)),
{
    assert(s.subrange(0, n).drop_last() =~= s.subrange(0, n - 1));
}

/// Removes the trailing NUL characters of a string (the effect of
/// `trim_end_matches('\0')`).
pub fn trim_trailing_nul_string(s: &String) -> (r: String)
    ensures
        r@ == trim_trailing_nul(s@),
{
    let st = s.as_str();
    let mut n = st.unicode_len();
    assert(st@.subrange(0, n as int) =~= st@);
    while n > 0 && st.get_char(n - 1) == '\0'
        invariant
            n <= st@.len(),
            st@ == s@,
            trim_trailing_nul(st@.subrange(0, n as int)) == trim_trailing_nul(st@),
        decreases n,
    {
        proof {
            lemma_trim_step(st@, n as int);
        }
        n = n - 1;
    }
    let kept = st.substring_char(0, n);
    String::from_str(kept)
}

/// Decodes a NUL-padded text field: lossy UTF-8 decoding, then the trailing
/// NUL characters are dropped.
pub fn decode_padded_text(bytes: &[u8]) -> (r: String)
    ensures
        r@ == padded_text(bytes@),
{
    let decoded = decode_utf8_lossy(bytes);
    trim_trailing_nul_string(&decoded)
}

} // verus!
