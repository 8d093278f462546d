//! Character and byte classes shared by document extraction and query parsing,
//! and the few calls into `std` whose results are text.

use vstd::prelude::*;
use vstd::utf8::{decode_utf8, is_ascii_chars, valid_utf8};

verus! {

/// A whitespace byte: tab, line feed, vertical tab, form feed, carriage return
/// or space (the ASCII members of Unicode's White_Space).
pub open spec fn is_space_byte(b: u8) -> bool {
    (9 <= b && b <= 13) || b == 32
}

/// An ASCII punctuation byte: `!` to `/`, `:` to `@`, `[` to the backquote,
/// `{` to `~`.
pub open spec fn is_punct_byte(b: u8) -> bool {
    (33 <= b && b <= 47) || (58 <= b && b <= 64) || (91 <= b && b <= 96) || (123 <= b
        && b <= 126)
}

/// An ASCII punctuation character (see `is_punct_byte`).
pub open spec fn is_punct_char(c: char) -> bool {
    let u = c as u32;
    (33 <= u && u <= 47) || (58 <= u && u <= 64) || (91 <= u && u <= 96) || (123 <= u
        && u <= 126)
}

/// A character with Unicode's White_Space property.
pub open spec fn is_white_char(c: char) -> bool {
    let u = c as u32;
    (9 <= u && u <= 13) || u == 32 || u == 0x85 || u == 0xA0 || u == 0x1680 || (0x2000 <= u
        && u <= 0x200A) || u == 0x2028 || u == 0x2029 || u == 0x202F || u == 0x205F || u
        == 0x3000
}

/// The byte with ASCII upper-case letters mapped to lower case.
pub open spec fn lower_byte(b: u8) -> u8 {
    if 65 <= b && b <= 90 {
        (b + 32) as u8
    } else {
        b
    }
}

pub fn is_space(b: u8) -> (r: bool)
    ensures
        r == is_space_byte(b),
{
    (9 <= b && b <= 13) || b == 32
}

pub fn is_punct(b: u8) -> (r: bool)
    ensures
        r == is_punct_byte(b),
{
    (33 <= b && b <= 47) || (58 <= b && b <= 64) || (91 <= b && b <= 96) || (123 <= b && b
        <= 126)
}

pub fn is_punct_ch(c: char) -> (r: bool)
    ensures
        r == is_punct_char(c),
{
    let u = c as u32;
    (33 <= u && u <= 47) || (58 <= u && u <= 64) || (91 <= u && u <= 96) || (123 <= u && u
        <= 126)
}

pub fn is_white(c: char) -> (r: bool)
    ensures
        r == is_white_char(c),
{
    let u = c as u32;
    (9 <= u && u <= 13) || u == 32 || u == 0x85 || u == 0xA0 || u == 0x1680 || (0x2000 <= u
        && u <= 0x200A) || u == 0x2028 || u == 0x2029 || u == 0x202F || u == 0x205F || u
        == 0x3000
}

pub fn to_lower_byte(b: u8) -> (r: u8)
    ensures
        r == lower_byte(b),
{
    if 65 <= b && b <= 90 {
        b + 32
    } else {
        b
    }
}

/// The number of leading characters of `s` that satisfy `is_white_char`.
pub open spec fn lead_white(s: Seq<char>) -> nat
    decreases s.len(),
{
    if s.len() > 0 && is_white_char(s[0]) {
        1 + lead_white(s.drop_first())
    } else {
        0
    }
}

/// The number of trailing characters of `s` that satisfy `is_white_char`.
pub open spec fn trail_white(s: Seq<char>) -> nat
    decreases s.len(),
{
    if s.len() > 0 && is_white_char(s.last()) {
        1 + trail_white(s.drop_last())
    } else {
        0
    }
}

/// `s` without its leading and trailing white space.
pub open spec fn trim_white(s: Seq<char>) -> Seq<char> {
    if lead_white(s) >= s.len() {
        Seq::empty()
    } else {
        s.subrange(lead_white(s) as int, s.len() - trail_white(s))
    }
}

/// The number of leading ASCII punctuation bytes of `w`.
pub open spec fn lead_punct(w: Seq<u8>) -> nat
    decreases w.len(),
{
    if w.len() > 0 && is_punct_byte(w[0]) {
        1 + lead_punct(w.drop_first())
    } else {
        0
    }
}

/// The number of leading ASCII punctuation characters of `s`.
pub open spec fn lead_punct_chars(s: Seq<char>) -> nat
    decreases s.len(),
{
    if s.len() > 0 && is_punct_char(s[0]) {
        1 + lead_punct_chars(s.drop_first())
    } else {
        0
    }
}

/// The number of trailing ASCII punctuation characters of `s`.
pub open spec fn trail_punct_chars(s: Seq<char>) -> nat
    decreases s.len(),
{
    if s.len() > 0 && is_punct_char(s.last()) {
        1 + trail_punct_chars(s.drop_last())
    } else {
        0
    }
}

/// `s` without its leading and trailing ASCII punctuation.
pub open spec fn trim_punct(s: Seq<char>) -> Seq<char> {
    if lead_punct_chars(s) >= s.len() {
        Seq::empty()
    } else {
        s.subrange(lead_punct_chars(s) as int, s.len() - trail_punct_chars(s))
    }
}

proof fn lemma_lead_punct(w: Seq<u8>, a: int)
    requires
        0 <= a <= w.len(),
        forall|k: int| 0 <= k < a ==> is_punct_byte(#[trigger] w[k]),
        a == w.len() || !is_punct_byte(w[a]),
    ensures
        lead_punct(w) == a,
    decreases a,
{
    if a > 0 {
        lemma_lead_punct(w.drop_first(), a - 1);
    }
}

proof fn lemma_lead_punct_chars(s: Seq<char>, a: int)
    requires
        0 <= a <= s.len(),
        forall|k: int| 0 <= k < a ==> is_punct_char(#[trigger] s[k]),
        a == s.len() || !is_punct_char(s[a]),
    ensures
        lead_punct_chars(s) == a,
    decreases a,
{
    if a > 0 {
        lemma_lead_punct_chars(s.drop_first(), a - 1);
    }
}

proof fn lemma_trail_punct_chars(s: Seq<char>, b: int)
    requires
        0 <= b <= s.len(),
        forall|k: int| s.len() - b <= k < s.len() ==> is_punct_char(#[trigger] s[k]),
        b == s.len() || !is_punct_char(s[s.len() - b - 1]),
    ensures
        trail_punct_chars(s) == b,
    decreases b,
{
    if b > 0 {
        lemma_trail_punct_chars(s.drop_last(), b - 1);
    }
}

/// Counts the leading ASCII punctuation bytes of `w`.
pub fn count_lead_punct(w: &[u8]) -> (r: usize)
    ensures
        r == lead_punct(w@),
{
    let mut a: usize = 0;
    while a < w.len() && is_punct(w[a])
        invariant
            0 <= a <= w@.len(),
            forall|k: int| 0 <= k < a ==> is_punct_byte(#[trigger] w@[k]),
        decreases w@.len() - a,
    {
        a = a + 1;
    }
    proof {
        lemma_lead_punct(w@, a as int);
    }
    a
}

/// `s` without its leading and trailing ASCII punctuation.
pub fn trim_punctuation(s: &str) -> (r: String)
    ensures
        r@ == trim_punct(s@),
{
    let n = s.unicode_len();
    let mut a: usize = 0;
    while a < n && is_punct_ch(s.get_char(a))
        invariant
            n == s@.len(),
            0 <= a <= n,
            forall|k: int| 0 <= k < a ==> is_punct_char(#[trigger] s@[k]),
        decreases n - a,
    {
        a = a + 1;
    }
    proof {
        lemma_lead_punct_chars(s@, a as int);
    }
    if a == n {
        return String::new();
    }
    let mut b: usize = 0;
    while b < n - a && is_punct_ch(s.get_char(n - 1 - b))
        invariant
            n == s@.len(),
            a < n,
            !is_punct_char(s@[a as int]),
            0 <= b <= n - a,
            forall|k: int| n - b <= k < n ==> is_punct_char(#[trigger] s@[k]),
        decreases n - a - b,
    {
        b = b + 1;
    }
    proof {
        lemma_trail_punct_chars(s@, b as int);
    }
    s.substring_char(a, n - b).to_owned()
}

/// What `str::to_lowercase` makes of a string: Unicode's full lower-case
/// mapping, which depends on the characters alone.
pub uninterp spec fn lower_text(s: Seq<char>) -> Seq<char>;

/// What `String::from_utf8_lossy` makes of a byte string: its UTF-8 decoding,
/// with each invalid sequence replaced by U+FFFD.
pub uninterp spec fn lossy_text(b: Seq<u8>) -> Seq<char>;

proof fn lemma_lead_white(s: Seq<char>, a: int)
    requires
        0 <= a <= s.len(),
        forall|k: int| 0 <= k < a ==> is_white_char(#[trigger] s[k]),
        a == s.len() || !is_white_char(s[a]),
    ensures
        lead_white(s) == a,
    decreases a,
{
    if a > 0 {
        lemma_lead_white(s.drop_first(), a - 1);
    }
}

proof fn lemma_trail_white(s: Seq<char>, b: int)
    requires
        0 <= b <= s.len(),
        forall|k: int| s.len() - b <= k < s.len() ==> is_white_char(#[trigger] s[k]),
        b == s.len() || !is_white_char(s[s.len() - b - 1]),
    ensures
        trail_white(s) == b,
    decreases b,
{
    if b > 0 {
        lemma_trail_white(s.drop_last(), b - 1);
    }
}

/// `s` without its leading and trailing white space, as `str::trim` gives it.
pub fn trim_str(s: &str) -> (r: &str)
    ensures
        r@ == trim_white(s@),
{
    let n = s.unicode_len();
    let mut a: usize = 0;
    while a < n && is_white(s.get_char(a))
        invariant
            n == s@.len(),
            0 <= a <= n,
            forall|k: int| 0 <= k < a ==> is_white_char(#[trigger] s@[k]),
        decreases n - a,
    {
        a = a + 1;
    }
    proof {
        lemma_lead_white(s@, a as int);
    }
    if a == n {
        return s.substring_char(n, n);
    }
    let mut b: usize = 0;
    while b < n - a && is_white(s.get_char(n - 1 - b))
        invariant
            n == s@.len(),
            a < n,
            !is_white_char(s@[a as int]),
            0 <= b <= n - a,
            forall|k: int| n - b <= k < n ==> is_white_char(#[trigger] s@[k]),
        decreases n - a - b,
    {
        b = b + 1;
    }
    proof {
        lemma_trail_white(s@, b as int);
    }
    s.substring_char(a, n - b)
}

/// A character with ASCII capitals mapped to lower case.
pub open spec fn ascii_lower(c: char) -> char {
    if 'A' <= c && c <= 'Z' {
        ((c as u32) + 32) as char
    } else {
        c
    }
}

/// Relies on `str::to_lowercase`, whose result depends on the characters
/// alone; on ASCII text it lowers the capitals and keeps everything else.
#[verifier::external_body]
pub(crate) fn lowercase(s: &str) -> (r: String)
    ensures
        r@ == lower_text(s@),
        is_ascii_chars(s@) ==> r@ == s@.map_values(|c: char| ascii_lower(c)),
{
    s.to_lowercase()
}

/// Relies on `String::from_utf8_lossy`, whose result depends on the bytes
/// alone; valid UTF-8 is decoded unchanged.
#[verifier::external_body]
pub(crate) fn decode_lossy(b: &[u8]) -> (r: String)
    ensures
        r@ == lossy_text(b@),
        valid_utf8(b@) ==> r@ == decode_utf8(b@),
{
    String::from_utf8_lossy(b).into_owned()
}

/// Relies on `<str as PartialEq>::eq`: two string slices are equal exactly
/// when they hold the same characters.
pub assume_specification[ <str as PartialEq>::eq ](s: &str, other: &str) -> (r: bool)
    ensures
        r == (s@ == other@),
;

/// Relies on `String::push`: it appends one character.
pub assume_specification[ String::push ](s: &mut String, ch: char)
    ensures
        final(s)@ == old(s)@.push(ch),
;

/// Relies on `String::push_str`: it appends a string slice.
pub assume_specification[ String::push_str ](s: &mut String, string: &str)
    ensures
        final(s)@ == old(s)@ + string@,
;

} // verus!
