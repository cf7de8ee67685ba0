//! Point Cloud Data (PCD) files in binary form.
//!
//! The header is text, one entry per line. Two entries matter here:
//! `POINTS n`, the number of points, and `DATA f`, the storage format, which
//! ends the header. In the `binary` format the points follow the header
//! directly; each takes 32 bytes: x, y, z and intensity as 32-bit floats,
//! then a normal (three floats) and a curvature that are skipped.
use crate::bytes::{le_u32, read_u32_le};
use vstd::prelude::*;
use vstd::utf8::{decode_utf8, valid_utf8};

verus! {

/// Why a PCD file could not be read.
#[derive(Debug, Clone, Copy, PartialEq, Eq, Structural)]
pub enum PcdError {
    /// A header line is not valid UTF-8.
    InvalidUtf8,
    /// The point count is not zero and the format is not `binary`.
    UnsupportedFormat,
    /// The file ends inside a point.
    UnexpectedEof,
}

/// One point: x, y, z and intensity as 32-bit float bit patterns.
#[derive(Debug, Clone, Copy, PartialEq, Eq, Structural)]
pub struct PcdPointBits {
    pub x: u32,
    pub y: u32,
    pub z: u32,
    pub intensity: u32,
}

// ---------------------------------------------------------------------------
// Text
// ---------------------------------------------------------------------------

/// Unicode `White_Space` characters, the ones `char::is_whitespace` accepts.
pub open spec fn is_white_space(c: char) -> bool {
    let u = c as u32;
    ||| 0x09 <= u <= 0x0D
    ||| u == 0x20
    ||| u == 0x85
    ||| u == 0xA0
    ||| u == 0x1680
    ||| 0x2000 <= u <= 0x200A
    ||| u == 0x2028
    ||| u == 0x2029
    ||| u == 0x202F
    ||| u == 0x205F
    ||| u == 0x3000
}

/// Whether `c` is a Unicode white-space character.
pub fn is_whitespace_char(c: char) -> (b: bool)
    ensures
        b == is_white_space(c),
{
    let u = c as u32;
    (0x09 <= u && u <= 0x0D) || u == 0x20 || u == 0x85 || u == 0xA0 || u == 0x1680 || (0x2000
        <= u && u <= 0x200A) || u == 0x2028 || u == 0x2029 || u == 0x202F || u == 0x205F || u
        == 0x3000
}

/// Number of leading white-space characters.
pub open spec fn ws_len(s: Seq<char>) -> nat
    decreases s.len(),
{
    if s.len() > 0 && is_white_space(s[0]) {
        1 + ws_len(s.drop_first())
    } else {
        0
    }
}

/// Number of leading characters that are not white space.
pub open spec fn word_len(s: Seq<char>) -> nat
    decreases s.len(),
{
    if s.len() > 0 && !is_white_space(s[0]) {
        1 + word_len(s.drop_first())
    } else {
        0
    }
}

/// Number of trailing white-space characters.
pub open spec fn trailing_ws_len(s: Seq<char>) -> nat
    decreases s.len(),
{
    if s.len() > 0 && is_white_space(s.last()) {
        1 + trailing_ws_len(s.drop_last())
    } else {
        0
    }
}

/// `s` without leading and trailing white space (`str::trim`).
pub open spec fn trim(s: Seq<char>) -> Seq<char> {
    let t = s.skip(ws_len(s) as int);
    t.take(t.len() - trailing_ws_len(t))
}

/// The second white-space separated token of `s`, if there is one
/// (`split_whitespace().nth(1)`).
pub open spec fn second_token(s: Seq<char>) -> Option<Seq<char>> {
    let a = ws_len(s) as int;
    let b = a + word_len(s.skip(a)) as int;
    let c = b + ws_len(s.skip(b)) as int;
    if c >= s.len() {
        None
    } else {
        Some(s.subrange(c, c + word_len(s.skip(c)) as int))
    }
}

/// `s` begins with `p`.
pub open spec fn starts_with(s: Seq<char>, p: Seq<char>) -> bool {
    s.len() >= p.len() && s.take(p.len() as int) == p
}

/// Value of a string of decimal digits.
pub open spec fn digits_value(s: Seq<char>) -> int
    decreases s.len(),
{
    if s.len() == 0 {
        0
    } else {
        digits_value(s.drop_last()) * 10 + ((s.last() as u32) as int - 48)
    }
}

/// Every character is an ASCII decimal digit.
pub open spec fn all_digits(s: Seq<char>) -> bool {
    forall|i: int| 0 <= i < s.len() ==> 48 <= #[trigger] (s[i] as u32) <= 57
}

/// The characters after an optional leading `+`.
pub open spec fn unsigned_digits(t: Seq<char>) -> Seq<char> {
    if t.len() > 0 && t[0] == '+' {
        t.drop_first()
    } else {
        t
    }
}

/// `usize::from_str`: an optional `+`, then at least one decimal digit, and a
/// value that fits.
pub open spec fn parse_usize(t: Seq<char>) -> Option<usize> {
    let digits = unsigned_digits(t);
    if digits.len() == 0 || !all_digits(digits) || digits_value(digits) > usize::MAX {
        None
    } else {
        Some(digits_value(digits) as usize)
    }
}

/// `POINTS ` (with the space).
pub open spec fn points_keyword() -> Seq<char> {
    seq!['P', 'O', 'I', 'N', 'T', 'S', ' ']
}

/// `DATA ` (with the space).
pub open spec fn data_keyword() -> Seq<char> {
    seq!['D', 'A', 'T', 'A', ' ']
}

/// `binary`.
pub open spec fn binary_word() -> Seq<char> {
    seq!['b', 'i', 'n', 'a', 'r', 'y']
}

/// `std::str::from_utf8` of std, with the characters of the string collected:
/// `None` exactly when the bytes are not valid UTF-8, otherwise their UTF-8
/// decoding.
#[verifier::external_body]
fn decode_utf8_chars(bytes: &[u8]) -> (r: Option<Vec<char>>)
    ensures
        r is Some <==> valid_utf8(bytes@),
        r matches Some(v) ==> v@ == decode_utf8(bytes@),
{
    std::str::from_utf8(bytes).ok().map(|s| s.chars().collect())
}

proof fn lemma_ws_len_bound(s: Seq<char>)
    ensures
        ws_len(s) <= s.len(),
    decreases s.len(),
{
    if s.len() > 0 && is_white_space(s[0]) {
        lemma_ws_len_bound(s.drop_first());
    }
}

proof fn lemma_word_len_bound(s: Seq<char>)
    ensures
        word_len(s) <= s.len(),
    decreases s.len(),
{
    if s.len() > 0 && !is_white_space(s[0]) {
        lemma_word_len_bound(s.drop_first());
    }
}

proof fn lemma_trailing_ws_len_bound(s: Seq<char>)
    ensures
        trailing_ws_len(s) <= s.len(),
    decreases s.len(),
{
    if s.len() > 0 && is_white_space(s.last()) {
        lemma_trailing_ws_len_bound(s.drop_last());
    }
}

/// Counting white space from `i` on: the count at `i` is one more than at
/// `i + 1` when `s[i]` is white space.
proof fn lemma_ws_len_step(s: Seq<char>, i: int)
    requires
        0 <= i < s.len(),
    ensures
        is_white_space(s[i]) ==> ws_len(s.skip(i)) == 1 + ws_len(s.skip(i + 1)),
        !is_white_space(s[i]) ==> ws_len(s.skip(i)) == 0,
        !is_white_space(s[i]) ==> word_len(s.skip(i)) == 1 + word_len(s.skip(i + 1)),
        is_white_space(s[i]) ==> word_len(s.skip(i)) == 0,
{
    assert(s.skip(i).drop_first() =~= s.skip(i + 1));
}

/// Number of white-space characters of `s` from `i` on.
fn count_ws(s: &Vec<char>, i: usize) -> (n: usize)
    requires
        i <= s@.len(),
    ensures
        n == ws_len(s@.skip(i as int)),
        i + n <= s.len(),
{
    let mut j = i;
    while j < s.len() && is_whitespace_char(s[j])
        invariant
            i <= j <= s@.len(),
            ws_len(s@.skip(i as int)) == (j - i) + ws_len(s@.skip(j as int)),
        decreases s@.len() - j,
    {
        proof {
            lemma_ws_len_step(s@, j as int);
        }
        j = j + 1;
    }
    proof {
        if j < s@.len() {
            lemma_ws_len_step(s@, j as int);
        } else {
            assert(s@.skip(j as int).len() == 0);
        }
    }
    j - i
}

/// Number of non-white-space characters of `s` from `i` on.
fn count_word(s: &Vec<char>, i: usize) -> (n: usize)
    requires
        i <= s@.len(),
    ensures
        n == word_len(s@.skip(i as int)),
        i + n <= s.len(),
{
    let mut j = i;
    while j < s.len() && !is_whitespace_char(s[j])
        invariant
            i <= j <= s@.len(),
            word_len(s@.skip(i as int)) == (j - i) + word_len(s@.skip(j as int)),
        decreases s@.len() - j,
    {
        proof {
            lemma_ws_len_step(s@, j as int);
        }
        j = j + 1;
    }
    proof {
        if j < s@.len() {
            lemma_ws_len_step(s@, j as int);
        } else {
            assert(s@.skip(j as int).len() == 0);
        }
    }
    j - i
}

/// The characters of `s` without leading and trailing white space.
pub fn trim_chars(s: &Vec<char>) -> (r: Vec<char>)
    ensures
        r@ == trim(s@),
{
    let a = count_ws(s, 0);
    assert(s@.skip(0) =~= s@);
    let mut b = s.len();
    let ghost t = s@.skip(a as int);
    assert(t.take(b - a) =~= t);
    while b > a && is_whitespace_char(s[b - 1])
        invariant
            a <= b <= s@.len(),
            t == s@.skip(a as int),
            trailing_ws_len(t) == (s@.len() - b) + trailing_ws_len(t.take(b - a)),
        decreases b,
    {
        proof {
            let u = t.take(b - a);
            assert(u.last() == s@[b - 1]);
            assert(u.drop_last() =~= t.take(b - 1 - a));
        }
        b = b - 1;
    }
    proof {
        assert(t.take(t.len() as int) =~= t);
        if b > a {
            assert(t.take(b - a).last() == s@[b - 1]);
        }
        assert(trailing_ws_len(t.take(b - a)) == 0);
    }
    let mut r: Vec<char> = Vec::new();
    let mut k = a;
    while k < b
        invariant
            a <= k <= b <= s@.len(),
            r@ == s@.subrange(a as int, k as int),
        decreases b - k,
    {
        r.push(s[k]);
        proof {
            assert(r@ =~= s@.subrange(a as int, k + 1));
        }
        k = k + 1;
    }
    proof {
        assert(r@ =~= t.take(t.len() - trailing_ws_len(t)));
    }
    r
}

/// The second white-space separated token of `s`, if there is one.
pub fn second_token_chars(s: &Vec<char>) -> (r: Option<Vec<char>>)
    ensures
        match r {
            Some(v) => second_token(s@) == Some(v@),
            None => second_token(s@) is None,
        },
{
    let a = count_ws(s, 0);
    assert(s@.skip(0) =~= s@);
    let b = a + count_word(s, a);
    let c = b + count_ws(s, b);
    if c >= s.len() {
        return None;
    }
    let d = c + count_word(s, c);
    let mut r: Vec<char> = Vec::new();
    let mut k = c;
    while k < d
        invariant
            c <= k <= d <= s@.len(),
            r@ == s@.subrange(c as int, k as int),
        decreases d - k,
    {
        r.push(s[k]);
        proof {
            assert(r@ =~= s@.subrange(c as int, k + 1));
        }
        k = k + 1;
    }
    Some(r)
}

/// Whether `s` begins with the characters of `p`.
fn starts_with_chars(s: &Vec<char>, p: &Vec<char>) -> (b: bool)
    ensures
        b == starts_with(s@, p@),
{
    if s.len() < p.len() {
        return false;
    }
    let mut i: usize = 0;
    while i < p.len()
        invariant
            p@.len() <= s@.len(),
            i <= p@.len(),
            forall|j: int| 0 <= j < i ==> s@[j] == p@[j],
        decreases p@.len() - i,
    {
        if s[i] != p[i] {
            assert(s@.take(p@.len() as int)[i as int] != p@[i as int]);
            return false;
        }
        i = i + 1;
    }
    assert(s@.take(p@.len() as int) =~= p@);
    true
}

/// Parses a decimal `usize` the way `str::parse::<usize>` does.
pub fn parse_usize_chars(t: &Vec<char>) -> (r: Option<usize>)
    ensures
        r == parse_usize(t@),
{
    let start: usize = if t.len() > 0 && t[0] == '+' {
        1
    } else {
        0
    };
    let ghost digits = unsigned_digits(t@);
    assert(digits =~= t@.skip(start as int));
    if start == t.len() {
        return None;
    }
    let mut value: usize = 0;
    let mut overflow = false;
    let mut i = start;
    while i < t.len()
        invariant
            start <= i <= t@.len(),
            digits == t@.skip(start as int),
            digits == unsigned_digits(t@),
            all_digits(t@.subrange(start as int, i as int)),
            !overflow ==> value == digits_value(t@.subrange(start as int, i as int)),
            overflow ==> digits_value(t@.subrange(start as int, i as int)) > usize::MAX,
        decreases t@.len() - i,
    {
        let c = t[i];
        let cu = c as u32;
        if cu < 48 || cu > 57 {
            proof {
                assert(digits[i - start] == c);
                assert(!(48 <= (digits[i - start] as u32) <= 57));
                assert(!all_digits(digits));
            }
            return None;
        }
        let d = (cu - 48) as usize;
        let ghost prefix = t@.subrange(start as int, i as int);
        let ghost next = t@.subrange(start as int, i + 1);
        proof {
            assert(next.drop_last() =~= prefix);
            assert(next.last() == c);
            assert(all_digits(next));
        }
        if !overflow {
            match value.checked_mul(10) {
                Some(m) => match m.checked_add(d) {
                    Some(v) => {
                        value = v;
                    },
                    None => {
                        overflow = true;
                    },
                },
                None => {
                    overflow = true;
                },
            }
        }
        i = i + 1;
    }
    proof {
        assert(t@.subrange(start as int, t@.len() as int) =~= digits);
    }
    if overflow {
        None
    } else {
        Some(value)
    }
}

// ---------------------------------------------------------------------------
// The format, stated over byte sequences
// ---------------------------------------------------------------------------

/// Position of the first newline at or after `i` (the length if none).
pub open spec fn next_newline(d: Seq<u8>, i: int) -> int
    decreases d.len() - i,
{
    if i >= d.len() {
        d.len() as int
    } else if d[i] == 10 {
        i
    } else {
        next_newline(d, i + 1)
    }
}

pub proof fn lemma_next_newline_bounds(d: Seq<u8>, i: int)
    requires
        0 <= i,
    ensures
        i <= d.len() ==> i <= next_newline(d, i) <= d.len(),
        next_newline(d, i) < d.len() ==> d[next_newline(d, i)] == 10,
    decreases d.len() - i,
{
    if i < d.len() && d[i] != 10 {
        lemma_next_newline_bounds(d, i + 1);
    }
}

/// End of the line starting at `pos`: after its newline, or the end of the
/// data (`BufRead::read_line`).
pub open spec fn line_end(d: Seq<u8>, pos: int) -> int {
    let n = next_newline(d, pos);
    if n < d.len() {
        n + 1
    } else {
        n
    }
}

/// Result of reading the header.
pub enum HeaderScan {
    /// A line is not valid UTF-8.
    InvalidUtf8,
    /// The header was read: the point count of the last `POINTS` line (0 if
    /// none or unparsable), the format of the `DATA` line (`None` if the data
    /// ended first; empty if the line has no second token), and where the
    /// point data starts.
    Done { num_points: usize, format: Option<Seq<char>>, data_start: int },
}

/// Reads header lines from `pos`, with `num` the point count seen so far.
pub open spec fn scan_header(d: Seq<u8>, pos: int, num: usize) -> HeaderScan
    decreases d.len() - pos,
{
    if pos >= d.len() || pos < 0 {
        HeaderScan::Done { num_points: num, format: None, data_start: d.len() as int }
    } else {
        let e = line_end(d, pos);
        proof {
            lemma_next_newline_bounds(d, pos);
        }
        let line = d.subrange(pos, e);
        if !valid_utf8(line) {
            HeaderScan::InvalidUtf8
        } else {
            let t = trim(decode_utf8(line));
            if starts_with(t, points_keyword()) {
                let n = match second_token(t) {
                    Some(tok) => match parse_usize(tok) {
                        Some(v) => v,
                        None => 0,
                    },
                    None => 0,
                };
                scan_header(d, e, n)
            } else if starts_with(t, data_keyword()) {
                let f = match second_token(t) {
                    Some(tok) => tok,
                    None => Seq::<char>::empty(),
                };
                HeaderScan::Done { num_points: num, format: Some(f), data_start: e }
            } else {
                scan_header(d, e, num)
            }
        }
    }
}

/// The point stored at `pos`.
pub open spec fn pcd_point_at(d: Seq<u8>, pos: int) -> PcdPointBits {
    PcdPointBits {
        x: le_u32(d, pos) as u32,
        y: le_u32(d, pos + 4) as u32,
        z: le_u32(d, pos + 8) as u32,
        intensity: le_u32(d, pos + 12) as u32,
    }
}

/// Layout of a PCD point: x, y, z and intensity, four consecutive 32-bit
/// words at 0, 4, 8 and 12.
pub proof fn lemma_pcd_point_layout(d: Seq<u8>, pos: int)
    requires
        0 <= pos,
        pos + 16 <= d.len(),
    ensures
        pcd_point_at(d, pos).x == crate::lvx2::word_at(d, pos),
        pcd_point_at(d, pos).y == crate::lvx2::word_at(d, pos + 4),
        pcd_point_at(d, pos).z == crate::lvx2::word_at(d, pos + 8),
        pcd_point_at(d, pos).intensity == crate::lvx2::word_at(d, pos + 12),
{
}

/// What reading a PCD file gives: its points, or the error.
pub open spec fn pcd_result(d: Seq<u8>) -> Result<Seq<PcdPointBits>, PcdError> {
    match scan_header(d, 0, 0) {
        HeaderScan::InvalidUtf8 => Err(PcdError::InvalidUtf8),
        HeaderScan::Done { num_points, format, data_start } => if num_points == 0 {
            Ok(Seq::empty())
        } else if format != Some(binary_word()) {
            Err(PcdError::UnsupportedFormat)
        } else if data_start + 32 * (num_points - 1) + 16 > d.len() {
            Err(PcdError::UnexpectedEof)
        } else {
            Ok(Seq::new(num_points as nat, |k: int| pcd_point_at(d, data_start + 32 * k)))
        },
    }
}

// ---------------------------------------------------------------------------
// Decoding
// ---------------------------------------------------------------------------

/// Position of the first newline at or after `i` (the length if none).
fn find_newline(data: &[u8], i: usize) -> (n: usize)
    requires
        i <= data@.len(),
    ensures
        n == next_newline(data@, i as int),
        i <= n <= data@.len(),
{
    let mut j = i;
    while j < data.len() && data[j] != 10
        invariant
            i <= j <= data@.len(),
            next_newline(data@, i as int) == next_newline(data@, j as int),
        decreases data@.len() - j,
    {
        j = j + 1;
    }
    j
}

/// Reads the header of a PCD file.
fn read_header(data: &[u8]) -> (r: Result<(usize, bool, usize), PcdError>)
    ensures
        match r {
            Ok((num, is_binary, start)) => scan_header(data@, 0, 0) matches HeaderScan::Done {
                num_points,
                format,
                data_start,
            } && num == num_points && is_binary == (format == Some(binary_word()))
                && start == data_start && start <= data@.len(),
            Err(e) => scan_header(data@, 0, 0) is InvalidUtf8 && e == PcdError::InvalidUtf8,
        },
{
    let points_kw: Vec<char> = vec!['P', 'O', 'I', 'N', 'T', 'S', ' '];
    let data_kw: Vec<char> = vec!['D', 'A', 'T', 'A', ' '];
    let binary: Vec<char> = vec!['b', 'i', 'n', 'a', 'r', 'y'];
    assert(points_kw@ =~= points_keyword());
    assert(data_kw@ =~= data_keyword());
    assert(binary@ =~= binary_word());
    let mut num: usize = 0;
    let mut pos: usize = 0;
    while pos < data.len()
        invariant
            pos <= data@.len(),
            points_kw@ == points_keyword(),
            data_kw@ == data_keyword(),
            binary@ == binary_word(),
            scan_header(data@, pos as int, num) == scan_header(data@, 0, 0),
        decreases data@.len() - pos,
    {
        let nl = find_newline(data, pos);
        let e = if nl < data.len() {
            nl + 1
        } else {
            nl
        };
        let line = vstd::slice::slice_subrange(data, pos, e);
        let chars = match decode_utf8_chars(line) {
            Some(c) => c,
            None => return Err(PcdError::InvalidUtf8),
        };
        let t = trim_chars(&chars);
        if starts_with_chars(&t, &points_kw) {
            num = match second_token_chars(&t) {
                Some(tok) => match parse_usize_chars(&tok) {
                    Some(v) => v,
                    None => 0,
                },
                None => 0,
            };
        } else if starts_with_chars(&t, &data_kw) {
            let is_binary = match second_token_chars(&t) {
                Some(tok) => vec_eq(&tok, &binary),
                None => {
                    proof {
                        assert(Seq::<char>::empty() != binary_word()) by {
                            assert(binary_word().len() == 6);
                        }
                    }
                    false
                },
            };
            return Ok((num, is_binary, e));
        }
        pos = e;
    }
    Ok((num, false, data.len()))
}

/// Whether two character vectors are equal.
fn vec_eq(a: &Vec<char>, b: &Vec<char>) -> (r: bool)
    ensures
        r == (a@ == b@),
{
    if a.len() != b.len() {
        return false;
    }
    let mut i: usize = 0;
    while i < a.len()
        invariant
            a@.len() == b@.len(),
            i <= a@.len(),
            forall|j: int| 0 <= j < i ==> a@[j] == b@[j],
        decreases a@.len() - i,
    {
        if a[i] != b[i] {
            return false;
        }
        i = i + 1;
    }
    assert(a@ =~= b@);
    true
}

/// Reads a PCD file held in memory: the header, then, when the point count
/// is not zero, the binary points. Each point takes 32 bytes of which the
/// first 16 are read; the normal and curvature after them may be cut off in
/// the last point.
pub fn parse_pcd(data: &[u8]) -> (r: Result<Vec<PcdPointBits>, PcdError>)
    ensures
        match r {
            Ok(points) => pcd_result(data@) == Ok::<Seq<PcdPointBits>, PcdError>(points@),
            Err(e) => pcd_result(data@) == Err::<Seq<PcdPointBits>, PcdError>(e),
        },
{
    let (num, is_binary, start) = match read_header(data) {
        Ok(h) => h,
        Err(e) => return Err(e),
    };
    if num == 0 {
        let empty: Vec<PcdPointBits> = Vec::new();
        assert(empty@ =~= Seq::<PcdPointBits>::empty());
        return Ok(empty);
    }
    if !is_binary {
        return Err(PcdError::UnsupportedFormat);
    }
    // Every point needs its first 16 bytes; the last one decides.
    if start > data.len() || data.len() - start < 16 || (num - 1) > (data.len() - start - 16)
        / 32 {
        proof {
            if start <= data@.len() && data@.len() - start >= 16 {
                let m = (data@.len() - start - 16) as int;
                assert((num - 1) > m / 32 ==> 32 * (num - 1) > m) by (nonlinear_arith);
            }
        }
        return Err(PcdError::UnexpectedEof);
    }
    proof {
        let m = (data@.len() - start - 16) as int;
        assert((num - 1) <= m / 32 ==> 32 * (num - 1) <= m) by (nonlinear_arith);
    }
    let mut points: Vec<PcdPointBits> = Vec::new();
    let mut k: usize = 0;
    let mut pos: usize = start;
    while k < num
        invariant
            start + 32 * (num - 1) + 16 <= data.len(),
            k <= num,
            k < num ==> pos == start + 32 * k,
            points@ == Seq::new(k as nat, |j: int| pcd_point_at(data@, start + 32 * j)),
        decreases num - k,
    {
        let p = PcdPointBits {
            x: read_u32_le(data, pos),
            y: read_u32_le(data, pos + 4),
            z: read_u32_le(data, pos + 8),
            intensity: read_u32_le(data, pos + 12),
        };
        points.push(p);
        proof {
            assert(points@ =~= Seq::new((k + 1) as nat, |j: int| pcd_point_at(data@, start + 32 * j)));
        }
        k = k + 1;
        if k < num {
            pos = pos + 32;
        }
    }
    Ok(points)
}

} // verus!
