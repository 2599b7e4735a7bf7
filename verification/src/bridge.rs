//! What the library takes from outside: the standard library's Unicode tables, Unicode
//! decomposition, the string similarity measures, compact strings, parallel evaluation and paths.
//! Everything stated here is believed, not proved.
use compact_str::CompactString;
use rayon::prelude::{IntoParallelRefIterator, ParallelIterator};
use std::path::PathBuf;
use unicode_normalization::UnicodeNormalization;
use vstd::prelude::*;
use vstd::utf8::is_ascii_chars;

use crate::single::{DOUBLE_BELOW_ONE_BITS, DOUBLE_ONE_BITS};

verus! {

/// `String::push` appends one character.
pub assume_specification[ String::push ](string: &mut String, c: char)
    ensures
        final(string)@ == old(string)@.push(c),
;

/// The Unicode `White_Space` property.
pub open spec fn white_space(c: char) -> bool {
    ||| '\u{0009}' <= c <= '\u{000D}'
    ||| c == ' '
    ||| c == '\u{0085}'
    ||| c == '\u{00A0}'
    ||| c == '\u{1680}'
    ||| '\u{2000}' <= c <= '\u{200A}'
    ||| c == '\u{2028}'
    ||| c == '\u{2029}'
    ||| c == '\u{202F}'
    ||| c == '\u{205F}'
    ||| c == '\u{3000}'
}

/// `char::is_whitespace` reports the `White_Space` property.
pub assume_specification[ char::is_whitespace ](c: char) -> (is: bool)
    ensures
        is == white_space(c),
;

/// The lowercase form of an ASCII character.
pub open spec fn ascii_lower(c: char) -> char {
    if 'A' <= c <= 'Z' {
        (c as u32 + 32) as char
    } else {
        c
    }
}

/// The lowercase mapping of a character, as `char::to_lowercase` yields it.
pub uninterp spec fn lowercase_chars(c: char) -> Seq<char>;

/// Calls `char::to_lowercase` and collects the characters that it yields, which depend on the
/// character alone; they are named `lowercase_chars`. An ASCII letter becomes its small form, and
/// any other ASCII character stays itself.
#[verifier::external_body]
pub(crate) fn lowercase(c: char) -> (lower: Vec<char>)
    ensures
        lower@ == lowercase_chars(c),
        c <= '\u{007F}' ==> lower@ == seq![ascii_lower(c)],
{
    c.to_lowercase().collect()
}

/// The lowercase form of a text, as `str::to_lowercase` returns it.
pub uninterp spec fn lowercase_text(s: Seq<char>) -> Seq<char>;

/// `str::to_lowercase` depends on the text alone; its value is named `lowercase_text`. ASCII text
/// is lowered character by character.
pub assume_specification[ str::to_lowercase ](s: &str) -> (lower: String)
    ensures
        lower@ == lowercase_text(s@),
        is_ascii_chars(s@) ==> lower@ == s@.map_values(|c: char| ascii_lower(c)),
;

/// The canonical decomposition of a text (Unicode Normalization Form D).
pub uninterp spec fn nfd_chars(s: Seq<char>) -> Seq<char>;

/// Calls `unicode_normalization::UnicodeNormalization::nfd` and collects the characters that it
/// yields, which depend on the text alone; they are named `nfd_chars`. ASCII never decomposes.
#[verifier::external_body]
pub(crate) fn nfd(s: &str) -> (decomposed: String)
    ensures
        decomposed@ == nfd_chars(s@),
        is_ascii_chars(s@) ==> decomposed@ == s@,
{
    s.nfd().collect()
}

/// The compatibility decomposition of a text (Unicode Normalization Form KD).
pub uninterp spec fn nfkd_chars(s: Seq<char>) -> Seq<char>;

/// Calls `unicode_normalization::UnicodeNormalization::nfkd` and collects the characters that it
/// yields, which depend on the text alone; they are named `nfkd_chars`. ASCII never decomposes.
#[verifier::external_body]
pub(crate) fn nfkd(s: &str) -> (decomposed: String)
    ensures
        decomposed@ == nfkd_chars(s@),
        is_ascii_chars(s@) ==> decomposed@ == s@,
{
    s.nfkd().collect()
}

/// The Jaro-Winkler similarity of two texts, in the encoding of a double-precision number.
pub uninterp spec fn jaro_winkler_bits(a: Seq<char>, b: Seq<char>) -> u64;

/// The length of texts, in characters, up to which a difference keeps their similarity visibly
/// below one.
pub const COMPARED_MAX: usize = 0x10_0000;

/// Calls `strsim::jaro_winkler`. The similarity depends on the two texts alone and lies between
/// zero and one: three quotients that are at most one each are averaged, and the prefix bonus
/// adds at most four tenths of what is missing to one.
///
/// For a text and itself it is one: each character is matched with itself, so that the three
/// quotients are one and nothing is missing. For texts that differ, the longer of them `n`
/// characters long, at least one of the quotients is at most `1 - 1/n`: either a character is left
/// without match, or all are matched and some stand in another order. So `1/(3n)` is missing
/// before the bonus, and six tenths of that after it. Up to `2^20` characters this is more than
/// `2^-23`, with a margin that rounding does not use up.
#[verifier::external_body]
pub(crate) fn jaro_winkler(a: &str, b: &str) -> (bits: u64)
    ensures
        bits == jaro_winkler_bits(a@, b@),
        bits <= DOUBLE_ONE_BITS,
        a@ == b@ ==> bits == DOUBLE_ONE_BITS,
        a@ != b@ && a@.len() <= COMPARED_MAX && b@.len() <= COMPARED_MAX ==> bits
            <= DOUBLE_BELOW_ONE_BITS,
{
    strsim::jaro_winkler(a, b).to_bits()
}

/// The normalized Levenshtein similarity of two texts, in the encoding of a double-precision
/// number.
pub uninterp spec fn normalized_levenshtein_bits(a: Seq<char>, b: Seq<char>) -> u64;

/// Calls `strsim::normalized_levenshtein`. The similarity depends on the two texts alone and is
/// documented to lie between zero and one, both included; it is one for a text and itself.
#[verifier::external_body]
pub(crate) fn normalized_levenshtein(a: &str, b: &str) -> (bits: u64)
    ensures
        bits == normalized_levenshtein_bits(a@, b@),
        bits <= DOUBLE_ONE_BITS,
        a@ == b@ ==> bits == DOUBLE_ONE_BITS,
{
    strsim::normalized_levenshtein(a, b).to_bits()
}

/// The Sorensen-Dice similarity of two texts, in the encoding of a double-precision number.
pub uninterp spec fn sorensen_dice_bits(a: Seq<char>, b: Seq<char>) -> u64;

/// Calls `strsim::sorensen_dice`. The similarity depends on the two texts alone (the pairs of
/// letters are counted, never listed) and lies between zero and one: twice the number of shared
/// pairs of letters, over a sum that is at least the number of pairs on both sides. It is one for
/// a text and itself, which are compared before anything is counted.
#[verifier::external_body]
pub(crate) fn sorensen_dice(a: &str, b: &str) -> (bits: u64)
    ensures
        bits == sorensen_dice_bits(a@, b@),
        bits <= DOUBLE_ONE_BITS,
        a@ == b@ ==> bits == DOUBLE_ONE_BITS,
{
    strsim::sorensen_dice(a, b).to_bits()
}

/// `compact_str::CompactString`, a string that stores short texts inline.
#[verifier::external_type_specification]
#[verifier::external_body]
pub struct ExCompactString(CompactString);

/// The text that a compact string holds.
pub uninterp spec fn compact_chars(s: CompactString) -> Seq<char>;

/// `CompactString::as_str` gives the text that the string holds.
pub assume_specification[ CompactString::as_str ](s: &CompactString) -> (text: &str)
    ensures
        text@ == compact_chars(*s),
;

/// Calls `CompactString::from`: the new string holds the given text.
#[verifier::external_body]
pub(crate) fn compact(text: &str) -> (s: CompactString)
    ensures
        compact_chars(s) == text@,
{
    CompactString::from(text)
}

/// `CompactString::clone`: the copy holds the same text.
pub assume_specification[ <CompactString as Clone>::clone ](s: &CompactString) -> (copy:
    CompactString)
    ensures
        compact_chars(copy) == compact_chars(*s),
;

/// Calls rayon's `par_iter`, `map` and `collect`: the function is applied to each item, on several
/// threads, and the results are collected in the order of the items.
#[verifier::external_body]
pub(crate) fn in_parallel<T: Sync, U: Send, F: Fn(&T) -> U + Sync + Send>(
    items: &[T],
    f: F,
) -> (results: Vec<U>)
    requires
        forall|i: int| 0 <= i < items@.len() ==> call_requires(f, (#[trigger] &items@[i],)),
    ensures
        results@.len() == items@.len(),
        forall|i: int|
            0 <= i < items@.len() ==> call_ensures(f, (&items@[i],), #[trigger] results@[i]),
{
    items.par_iter().map(f).collect()
}

/// `std::path::PathBuf`, which is only carried along.
#[verifier::external_type_specification]
#[verifier::external_body]
pub struct ExPathBuf(PathBuf);

/// `PathBuf::clone` gives the same path.
pub assume_specification[ <PathBuf as Clone>::clone ](path: &PathBuf) -> (copy: PathBuf)
    ensures
        copy == *path,
;

} // verus!
