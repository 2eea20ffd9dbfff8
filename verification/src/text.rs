//! Text helpers: decoding of fixed-size text fields and hexadecimal output.

use vstd::prelude::*;
use vstd::string::{StrSliceExecFns, StringExecFns};

verus! {

/// The characters `String::from_utf8_lossy` makes of `bytes`: UTF-8 decoded,
/// with each invalid sequence replaced by U+FFFD.
pub uninterp spec fn utf8_lossy(bytes: Seq<u8>) -> Seq<char>;

/// Calls `String::from_utf8_lossy`. The contract claims that the result is
/// `utf8_lossy` of the bytes and, as the standard library documents, that
/// valid UTF-8 is decoded as it stands. How invalid sequences are replaced
/// is left to the name.
#[verifier::external_body]
pub(crate) fn string_from_utf8_lossy(bytes: &[u8]) -> (s: String)
    ensures
        s@ == utf8_lossy(bytes@),
        vstd::utf8::valid_utf8(bytes@) ==> s@ == vstd::utf8::decode_utf8(bytes@),
{
    String::from_utf8_lossy(bytes).into_owned()
}

/// `s` without its trailing NUL characters.
pub open spec fn trim_trailing_nul(s: Seq<char>) -> Seq<char>
    decreases s.len(),
{
    if s.len() > 0 && s.last() == '\0' {
        trim_trailing_nul(s.drop_last())
    } else {
        s
    }
}

/// `s` without its trailing NUL characters.
pub(crate) fn trim_end_nul(s: &str) -> (r: String)
    ensures
        r@ == trim_trailing_nul(s@),
{
    let mut n: usize = s.unicode_len();
    assert(s@.subrange(0, n as int) =~= s@);
    while n > 0 && s.get_char(n - 1) == '\0'
        invariant
            n <= s@.len(),
            trim_trailing_nul(s@.subrange(0, n as int)) == trim_trailing_nul(s@),
        decreases n,
    {
        assert(s@.subrange(0, n as int).drop_last() =~= s@.subrange(0, n - 1));
        n -= 1;
    }
    String::from_str(s.substring_char(0, n))
}

/// The lowercase hexadecimal digit of `n` (0 to 15).
pub open spec fn hex_digit(n: int) -> char {
    if n < 10 { (48 + n) as char } else { (87 + n) as char }
}

/// A byte as two lowercase hexadecimal digits.
pub open spec fn hex_pair(b: u8) -> Seq<char> {
    seq![hex_digit((b / 16) as int), hex_digit((b % 16) as int)]
}

/// The lowercase hexadecimal digit of `n` as text.
fn lower_digit_str(n: u8) -> (s: &'static str)
    requires
        n < 16,
    ensures
        s@ == seq![hex_digit(n as int)],
{
    let digits: &'static str = "0123456789abcdef";
    proof {
        reveal_strlit("0123456789abcdef");
    }
    let s: &'static str = digits.substring_char(n as usize, n as usize + 1);
    assert(s@ =~= seq![hex_digit(n as int)]);
    s
}

/// A byte as two lowercase hexadecimal digits, high digit first.
pub(crate) fn format_hex_byte(b: u8) -> (s: String)
    ensures
        s@ == hex_pair(b),
{
    let mut s: String = String::from_str(lower_digit_str(b / 16));
    s.append(lower_digit_str(b % 16));
    assert(s@ =~= hex_pair(b));
    s
}

/// Pieces of text with a space between each two.
pub open spec fn join_with_space(parts: Seq<Seq<char>>) -> Seq<char>
    decreases parts.len(),
{
    if parts.len() == 0 {
        Seq::empty()
    } else if parts.len() == 1 {
        parts[0]
    } else {
        join_with_space(parts.drop_last()) + seq![' '] + parts.last()
    }
}

pub open spec fn strings_view(parts: Seq<String>) -> Seq<Seq<char>> {
    parts.map_values(|p: String| p@)
}

/// Calls `join` on a slice of strings with a space as separator: as
/// documented, the pieces in order with a space between each two.
#[verifier::external_body]
pub(crate) fn join_spaced(parts: &Vec<String>) -> (s: String)
    ensures
        s@ == join_with_space(strings_view(parts@)),
{
    parts.join(" ")
}

/// `s` with the ASCII lowercase letters made uppercase.
pub open spec fn ascii_upper(s: Seq<char>) -> Seq<char> {
    Seq::new(s.len(), |i: int| if 97 <= s[i] as int <= 122 { ((s[i] as int) - 32) as char } else { s[i] })
}

/// Calls `str::to_uppercase`. The contract claims what its documentation
/// gives for ASCII text: the lowercase letters become uppercase and the
/// rest stays. What it does to other characters is left unsaid.
#[verifier::external_body]
pub(crate) fn to_uppercase(s: &str) -> (r: String)
    ensures
        (forall|i: int| 0 <= i < s@.len() ==> (s@[i] as int) < 128) ==> r@ == ascii_upper(s@),
{
    s.to_uppercase()
}

} // verus!
