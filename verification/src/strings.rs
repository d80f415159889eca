//! Conversions between `str`/`String` and character vectors, the std text
//! functions that the library calls (case mapping, lossy UTF-8, `usize`
//! parsing), and the check of unsigned decimal numerals.
use vstd::prelude::*;

verus! {

/// `String::push`, as std documents it, appends the given character to the
/// end of the string; this contract is trusted.
pub assume_specification[ String::push ](s: &mut String, ch: char)
    ensures
        final(s)@ == old(s)@.push(ch),
;

/// The characters of a string slice.
pub fn chars_of(s: &str) -> (v: Vec<char>)
    ensures
        v@ == s@,
{
    let mut v: Vec<char> = Vec::new();
    for c in it: s.chars()
        invariant
            v@ == it.seq().take(it.index()),
            it.seq() == s@,
    {
        v.push(c);
    }
    v
}

/// A string made of the given characters.
pub fn string_of(v: &[char]) -> (s: String)
    ensures
        s@ == v@,
{
    let mut s = String::new();
    let mut i: usize = 0;
    while i < v.len()
        invariant
            i <= v.len(),
            s@ == v@.take(i as int),
        decreases v.len() - i,
    {
        s.push(v[i]);
        i = i + 1;
        assert(v@.take(i as int) == v@.take(i - 1).push(v@[i - 1]));
    }
    assert(v@.take(v.len() as int) == v@);
    s
}

/// What `str::to_lowercase` returns for a string with the given characters
/// when they are not all ASCII (Unicode lowercase mapping).
pub uninterp spec fn lowercase(s: Seq<char>) -> Seq<char>;

/// The ASCII lower case of a character: `A`..`Z` become `a`..`z`.
pub open spec fn ascii_lower(c: char) -> char {
    if 65 <= (c as u32) && (c as u32) <= 90 {
        ((c as u32) + 32) as char
    } else {
        c
    }
}

/// All characters are ASCII.
pub open spec fn all_ascii(s: Seq<char>) -> bool {
    forall|i: int| 0 <= i < s.len() ==> (#[trigger] s[i] as u32) < 128
}

/// What `str::to_lowercase` returns: on ASCII text the ASCII lower case,
/// character by character; otherwise `lowercase`.
pub open spec fn lower_text(s: Seq<char>) -> Seq<char> {
    if all_ascii(s) {
        s.map_values(|c: char| ascii_lower(c))
    } else {
        lowercase(s)
    }
}

/// Calls `str::to_lowercase`. On ASCII text the result is the ASCII lower
/// case, character by character (the Unicode lowercase mapping takes `A`..`Z`
/// to `a`..`z` and every other ASCII character to itself); on other text it is
/// named by `lowercase`.
#[verifier::external_body]
pub(crate) fn to_lowercase(s: &str) -> (r: String)
    ensures
        all_ascii(s@) ==> r@ == s@.map_values(|c: char| ascii_lower(c)),
        !all_ascii(s@) ==> r@ == lowercase(s@),
{
    s.to_lowercase()
}

/// `lower_text` on character vectors.
pub fn lowercase_chars(s: &[char]) -> (r: Vec<char>)
    ensures
        r@ == lower_text(s@),
{
    let st = string_of(s);
    let low = to_lowercase(st.as_str());
    chars_of(low.as_str())
}

/// What `String::from_utf8_lossy` returns for bytes that are not valid UTF-8:
/// the decoded text, with U+FFFD in place of each invalid sequence.
pub uninterp spec fn utf8_lossy(bytes: Seq<u8>) -> Seq<char>;

/// The text that `String::from_utf8_lossy` makes of bytes: the decoded text
/// of valid UTF-8, `utf8_lossy` otherwise.
pub open spec fn lossy_text(bytes: Seq<u8>) -> Seq<char> {
    if vstd::utf8::valid_utf8(bytes) {
        vstd::utf8::decode_utf8(bytes)
    } else {
        utf8_lossy(bytes)
    }
}

/// Calls `String::from_utf8_lossy`: valid UTF-8 is decoded as it stands (as
/// std documents); the result on other input is named by `utf8_lossy`.
#[verifier::external_body]
pub(crate) fn from_utf8_lossy(bytes: &[u8]) -> (r: String)
    ensures
        vstd::utf8::valid_utf8(bytes@) ==> r@ == vstd::utf8::decode_utf8(bytes@),
        !vstd::utf8::valid_utf8(bytes@) ==> r@ == utf8_lossy(bytes@),
{
    String::from_utf8_lossy(bytes).into_owned()
}

/// Whether `c` is one of the ASCII digits `0`..`9`.
pub open spec fn is_digit(c: char) -> bool {
    48 <= (c as u32) && (c as u32) <= 57
}

/// The number written by a sequence of ASCII digits.
pub open spec fn digits_value(s: Seq<char>) -> nat
    decreases s.len(),
{
    if s.len() == 0 {
        0
    } else {
        digits_value(s.drop_last()) * 10 + ((s.last() as u32) - 48) as nat
    }
}

/// A numeral without its optional leading `+`.
pub open spec fn numeral_digits(s: Seq<char>) -> Seq<char> {
    if s.len() > 0 && s[0] == '+' {
        s.drop_first()
    } else {
        s
    }
}

/// Whether every character is an ASCII digit.
pub open spec fn all_digits(t: Seq<char>) -> bool {
    forall|i: int| 0 <= i < t.len() ==> is_digit(#[trigger] t[i])
}

/// The value of a decimal numeral with an optional leading `+`, as the
/// `FromStr` impls of the unsigned integer types read it (before the range check).
pub open spec fn unsigned_numeral(s: Seq<char>) -> Option<nat> {
    let t = numeral_digits(s);
    if t.len() > 0 && all_digits(t) {
        Some(digits_value(t))
    } else {
        None
    }
}

/// The text of the `ParseIntError` that `usize::from_str` gives for the given string.
pub uninterp spec fn usize_parse_error_text(s: Seq<char>) -> Seq<char>;

/// Calls `usize::from_str`: it succeeds exactly on an optional `+` followed by
/// ASCII digits whose value fits in `usize`; the error's text is named.
#[verifier::external_body]
pub(crate) fn parse_usize(s: &str) -> (r: Result<usize, String>)
    ensures
        match r {
            Ok(n) => unsigned_numeral(s@) == Some(n as nat),
            Err(e) => e@ == usize_parse_error_text(s@) && !(unsigned_numeral(s@) matches Some(
                v,
            ) && v <= usize::MAX),
        },
{
    match s.parse::<usize>() {
        Ok(n) => Ok(n),
        Err(e) => Err(e.to_string()),
    }
}

/// A numeral's value is at least that of any of its prefixes.
proof fn lemma_digits_value_prefix(t: Seq<char>, k: int)
    requires
        0 <= k <= t.len(),
    ensures
        digits_value(t.take(k)) <= digits_value(t),
    decreases t.len(),
{
    if k < t.len() {
        lemma_digits_value_prefix(t.drop_last(), k);
        assert(t.drop_last().take(k) == t.take(k));
    } else {
        assert(t.take(k) == t);
    }
}

/// Whether `u64::from_str` accepts the string: an optional `+` followed by
/// ASCII digits whose value fits in `u64`.
pub(crate) fn parses_as_u64(s: &str) -> (r: bool)
    ensures
        r == (unsigned_numeral(s@) matches Some(v) && v <= u64::MAX),
{
    let c = chars_of(s);
    let start: usize = if c.len() > 0 && c[0] == '+' { 1 } else { 0 };
    let ghost t = c@.skip(start as int);
    assert(t == numeral_digits(s@));
    if start == c.len() {
        return false;
    }
    let mut value: u64 = 0;
    let mut i: usize = start;
    assert(t.take(0) == Seq::<char>::empty());
    while i < c.len()
        invariant
            start <= i <= c.len(),
            t == c@.skip(start as int),
            c@ == s@,
            t == numeral_digits(s@),
            forall|j: int| 0 <= j < i - start ==> is_digit(#[trigger] t[j]),
            value as nat == digits_value(t.take(i - start)),
        decreases c.len() - i,
    {
        let d = c[i];
        assert(t[i - start] == d);
        if !(48 <= (d as u32) && (d as u32) <= 57) {
            assert(!is_digit(t[i - start]));
            return false;
        }
        let ghost k = i - start;
        assert(t.take(k + 1).drop_last() == t.take(k));
        assert(t.take(k + 1).last() == d);
        let digit: u64 = ((d as u32) - 48) as u64;
        if value > u64::MAX / 10 || (value == u64::MAX / 10 && digit > u64::MAX % 10) {
            proof {
                assert(digits_value(t.take(k + 1)) > u64::MAX);
                if all_digits(t) {
                    lemma_digits_value_prefix(t, k + 1);
                }
            }
            return false;
        }
        value = value * 10 + digit;
        i = i + 1;
    }
    assert(t.take(t.len() as int) == t);
    true
}

} // verus!
