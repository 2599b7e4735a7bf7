//! Text normalization.
use vstd::prelude::*;
use vstd::utf8::is_ascii_chars;

use crate::bridge::{ascii_lower, lowercase, lowercase_chars, nfkd, nfkd_chars, white_space};
use crate::punctuation::{is_punctuation, punctuation, script_punctuation};
use crate::search::{occurs_at, stands_in, StructuralSearchEngine};
use crate::text::{chars_of, text_of};

verus! {

/// The character separates words.
pub open spec fn separates(c: char) -> bool {
    white_space(c) || c == '\n' || c == '\r' || c == '\t'
}

/// A combining diacritical mark (U+0300 to U+036F), which is dropped.
pub open spec fn combining(c: char) -> bool {
    '\u{0300}' <= c <= '\u{036F}'
}

/// The character belongs to a word.
pub open spec fn letter(c: char) -> bool {
    !separates(c) && !punctuation(c) && !combining(c)
}

/// The pieces of a character: its compatibility decomposition. ASCII does not decompose.
pub open spec fn pieces_of(c: char) -> Seq<char> {
    if c <= '\u{007F}' {
        seq![c]
    } else {
        nfkd_chars(seq![c])
    }
}

/// The lowercase form of a character.
pub open spec fn lowered(c: char) -> Seq<char> {
    if c <= '\u{007F}' {
        seq![ascii_lower(c)]
    } else {
        lowercase_chars(c)
    }
}

/// A normalized text in the making: its characters, for each of them the index of the character
/// of the original text that it comes from, and whether a further separator would be redundant.
#[verifier::ext_equal]
pub struct Normalized {
    pub chars: Seq<char>,
    pub origins: Seq<usize>,
    pub after_space: bool,
}

/// `n` copies of `origin`.
pub open spec fn copies(origin: usize, n: nat) -> Seq<usize> {
    Seq::new(n, |i: int| origin)
}

/// Takes a separator: it becomes a space where there is not one already.
pub open spec fn take_space(state: Normalized, at: usize) -> Normalized {
    if state.after_space {
        state
    } else {
        Normalized {
            chars: state.chars.push(' '),
            origins: state.origins.push(at),
            after_space: true,
        }
    }
}

/// Takes a piece of the character at index `at`, with the lowercase form `lower`. Punctuation and
/// combining marks are dropped.
pub open spec fn take_piece(state: Normalized, piece: char, lower: Seq<char>, at: usize)
    -> Normalized {
    if separates(piece) {
        take_space(state, at)
    } else if punctuation(piece) || combining(piece) {
        state
    } else {
        Normalized {
            chars: state.chars + lower,
            origins: state.origins + copies(at, lower.len()),
            after_space: false,
        }
    }
}

/// Takes the first `n` pieces of the character at index `at`.
pub open spec fn take_pieces(state: Normalized, pieces: Seq<char>, at: usize, n: nat) -> Normalized
    decreases n,
{
    if n == 0 {
        state
    } else {
        let piece = pieces[n - 1];
        take_piece(take_pieces(state, pieces, at, (n - 1) as nat), piece, lowered(piece), at)
    }
}

/// Takes one more character of the original text, the one at index `at`.
pub open spec fn take_char(state: Normalized, c: char, at: usize) -> Normalized {
    if separates(c) {
        take_space(state, at)
    } else if punctuation(c) {
        state
    } else {
        take_pieces(state, pieces_of(c), at, pieces_of(c).len())
    }
}

/// The first `n` characters of `text`, normalized, with a trailing separator still in place.
pub open spec fn take_chars(text: Seq<char>, n: nat) -> Normalized
    decreases n,
{
    if n == 0 {
        Normalized { chars: Seq::empty(), origins: Seq::empty(), after_space: true }
    } else {
        take_char(take_chars(text, (n - 1) as nat), text[n - 1], (n - 1) as usize)
    }
}

/// The text without a trailing separator.
pub open spec fn without_trailing_space(state: Normalized) -> (Seq<char>, Seq<usize>) {
    if state.chars.len() > 0 && state.chars.last() == ' ' {
        (state.chars.drop_last(), state.origins.drop_last())
    } else {
        (state.chars, state.origins)
    }
}

/// The normalized characters of `text`.
pub open spec fn normalized_chars(text: Seq<char>) -> Seq<char> {
    without_trailing_space(take_chars(text, text.len())).0
}

/// For each normalized character the index of the original character it comes from.
pub open spec fn normalized_origins(text: Seq<char>) -> Seq<usize> {
    without_trailing_space(take_chars(text, text.len())).1
}

/// A normalized text in the making.
pub struct Normalizer {
    pub chars: Vec<char>,
    pub mapping: Vec<usize>,
    pub after_space: bool,
}

impl View for Normalizer {
    type V = Normalized;

    open spec fn view(&self) -> Normalized {
        Normalized {
            chars: self.chars@,
            origins: self.mapping@,
            after_space: self.after_space,
        }
    }
}

fn is_separator(c: char) -> (is: bool)
    ensures
        is == separates(c),
{
    c.is_whitespace() || c == '\n' || c == '\r' || c == '\t'
}

impl Normalizer {
    /// Begins with nothing.
    pub fn new() -> (normalizer: Self)
        ensures
            normalizer@ == take_chars(Seq::empty(), 0),
    {
        Normalizer { chars: Vec::new(), mapping: Vec::new(), after_space: true }
    }

    /// Takes a separator.
    pub fn take_space(&mut self, at: usize)
        ensures
            final(self)@ == take_space(old(self)@, at),
    {
        if !self.after_space {
            self.chars.push(' ');
            self.mapping.push(at);
            self.after_space = true;
        }
    }

    /// Takes a piece of the character at index `at`, whose lowercase form is given.
    pub fn take_piece(&mut self, piece: char, lower: &[char], at: usize)
        ensures
            final(self)@ == take_piece(old(self)@, piece, lower@, at),
    {
        if is_separator(piece) {
            self.take_space(at);
        } else if !is_punctuation(piece) && !('\u{0300}' <= piece && piece <= '\u{036F}') {
            let mut i: usize = 0;
            while i < lower.len()
                invariant
                    i <= lower@.len(),
                    self.chars@ == old(self).chars@ + lower@.take(i as int),
                    self.mapping@ == old(self).mapping@ + copies(at, i as nat),
                decreases lower.len() - i,
            {
                self.chars.push(lower[i]);
                self.mapping.push(at);
                i = i + 1;
            }
            assert(lower@.take(i as int) == lower@);
            self.after_space = false;
        }
    }

    /// Takes a character, the one at index `at`.
    pub fn take_char(&mut self, c: char, at: usize)
        ensures
            final(self)@ == take_char(old(self)@, c, at),
    {
        if is_separator(c) {
            self.take_space(at);
        } else if !is_punctuation(c) {
            let mut one = String::new();
            one.push(c);
            assert(one@ == seq![c]);
            let pieces = chars_of(&nfkd(&one));
            assert(pieces@ == pieces_of(c));
            let mut i: usize = 0;
            while i < pieces.len()
                invariant
                    i <= pieces@.len(),
                    self@ == take_pieces(old(self)@, pieces@, at, i as nat),
                decreases pieces.len() - i,
            {
                let lower = lowercase(pieces[i]);
                self.take_piece(pieces[i], &lower, at);
                i = i + 1;
            }
        }
    }

    /// Drops a trailing separator and hands the text and its mapping out.
    pub fn finish(self) -> (r: (String, Vec<usize>))
        requires
            self.chars@.len() == self.mapping@.len(),
        ensures
            (r.0@, r.1@) == without_trailing_space(self@),
    {
        let mut chars = self.chars;
        let mut mapping = self.mapping;
        let n = chars.len();
        if n > 0 && chars[n - 1] == ' ' {
            chars.pop();
            mapping.pop();
        }
        (text_of(&chars), mapping)
    }
}

impl StructuralSearchEngine {
    /// Normalizes raw input text, removing diacritics, layout noise, and punctuation and folding
    /// compatibility forms, while building a mapping that links each normalized character back to
    /// the index of the original character it comes from.
    pub fn normalize_text_with_mapping(text: &str) -> (r: (String, Vec<usize>))
        ensures
            r.0@ == normalized_chars(text@),
            r.1@ == normalized_origins(text@),
    {
        let chars = chars_of(text);
        let mut normalizer = Normalizer::new();
        let mut i: usize = 0;
        while i < chars.len()
            invariant
                i <= chars@.len(),
                chars@ == text@,
                normalizer@ == take_chars(text@, i as nat),
            decreases chars.len() - i,
        {
            normalizer.take_char(chars[i], i);
            i = i + 1;
        }
        proof {
            lemma_take_chars(text@, text@.len());
        }
        normalizer.finish()
    }
}

/// `next` is what becomes of `state` when the character at index `at` is taken: characters may
/// have been added, and they come from there.
spec fn extends(state: Normalized, next: Normalized, at: usize) -> bool {
    &&& next.chars.len() == next.origins.len()
    &&& state.origins.len() <= next.origins.len()
    &&& forall|i: int|
        0 <= i < state.origins.len() ==> #[trigger] next.origins[i] == state.origins[i]
    &&& forall|i: int|
        state.origins.len() <= i < next.origins.len() ==> #[trigger] next.origins[i] == at
}

proof fn lemma_take_pieces(state: Normalized, pieces: Seq<char>, at: usize, n: nat)
    requires
        state.chars.len() == state.origins.len(),
    ensures
        extends(state, take_pieces(state, pieces, at, n), at),
    decreases n,
{
    if n > 0 {
        lemma_take_pieces(state, pieces, at, (n - 1) as nat);
    }
}

proof fn lemma_take_char(state: Normalized, c: char, at: usize)
    requires
        state.chars.len() == state.origins.len(),
    ensures
        extends(state, take_char(state, c, at), at),
{
    lemma_take_pieces(state, pieces_of(c), at, pieces_of(c).len());
}

/// What `take_chars` keeps: as many origins as characters, each the index of a character taken so
/// far, in ascending order.
proof fn lemma_take_chars(text: Seq<char>, n: nat)
    requires
        n <= text.len() <= usize::MAX,
    ensures
        take_chars(text, n).chars.len() == take_chars(text, n).origins.len(),
        forall|i: int|
            0 <= i < take_chars(text, n).origins.len() ==> (#[trigger] take_chars(
                text,
                n,
            ).origins[i]) < n,
        forall|i: int, j: int|
            0 <= i <= j < take_chars(text, n).origins.len() ==> (#[trigger] take_chars(
                text,
                n,
            ).origins[i]) <= (#[trigger] take_chars(text, n).origins[j]),
    decreases n,
{
    if n > 0 {
        let m = (n - 1) as nat;
        lemma_take_chars(text, m);
        lemma_take_char(take_chars(text, m), text[m as int], m as usize);
    }
}

/// The mapping has one entry for each normalized character; the entries are indices into the
/// original text and never descend.
pub proof fn law_mapping_follows_text(text: Seq<char>)
    requires
        text.len() <= usize::MAX,
    ensures
        normalized_chars(text).len() == normalized_origins(text).len(),
        forall|i: int|
            0 <= i < normalized_origins(text).len() ==> (#[trigger] normalized_origins(text)[i])
                < text.len(),
        forall|i: int, j: int|
            0 <= i <= j < normalized_origins(text).len() ==> (#[trigger] normalized_origins(
                text,
            )[i]) <= (#[trigger] normalized_origins(text)[j]),
{
    lemma_take_chars(text, text.len());
}

/// Punctuation and layout do not count: a text without letters normalizes to nothing.
pub proof fn law_no_letters_no_text(text: Seq<char>)
    requires
        forall|i: int|
            0 <= i < text.len() ==> separates(#[trigger] text[i]) || punctuation(text[i]),
    ensures
        normalized_chars(text) == Seq::<char>::empty(),
        normalized_origins(text) == Seq::<usize>::empty(),
{
    lemma_no_letters(text, text.len());
}

proof fn lemma_no_letters(text: Seq<char>, n: nat)
    requires
        n <= text.len(),
        forall|i: int|
            0 <= i < text.len() ==> separates(#[trigger] text[i]) || punctuation(text[i]),
    ensures
        take_chars(text, n) == (Normalized {
            chars: Seq::empty(),
            origins: Seq::empty(),
            after_space: true,
        }),
    decreases n,
{
    if n > 0 {
        lemma_no_letters(text, (n - 1) as nat);
    }
}

/// A letter on which normalization has nothing more to do.
pub open spec fn settled(c: char) -> bool {
    letter(c) && pieces_of(c) == seq![c] && lowered(c) == seq![c]
}

/// The letter has a lowercase form, on which normalization has nothing more to do.
pub open spec fn settles(piece: char) -> bool {
    letter(piece) ==> lowered(piece).len() > 0 && forall|k: int|
        0 <= k < lowered(piece).len() ==> settled(#[trigger] lowered(piece)[k])
}

/// All letters of the text settle.
pub open spec fn text_settles(text: Seq<char>) -> bool {
    forall|i: int, j: int|
        {
            &&& 0 <= i < text.len()
            &&& !separates(text[i])
            &&& !punctuation(text[i])
            &&& 0 <= j < pieces_of(text[i]).len()
        } ==> settles(#[trigger] pieces_of(text[i])[j])
}

/// Spaces stand alone: none in front, no two in a row.
pub open spec fn single_spaced(chars: Seq<char>) -> bool {
    &&& chars.len() > 0 ==> chars[0] != ' '
    &&& forall|i: int| 0 < i < chars.len() && #[trigger] chars[i] == ' ' ==> chars[i - 1] != ' '
}

/// Nothing but settled letters and single spaces.
pub open spec fn clean(chars: Seq<char>) -> bool {
    &&& single_spaced(chars)
    &&& forall|i: int| 0 <= i < chars.len() ==> #[trigger] chars[i] == ' ' || settled(chars[i])
}

/// The text so far is clean, and a space is redundant exactly where it would not be clean.
spec fn clean_state(state: Normalized) -> bool {
    &&& clean(state.chars)
    &&& state.after_space == (state.chars.len() == 0 || state.chars.last() == ' ')
}

proof fn lemma_clean_pieces(state: Normalized, pieces: Seq<char>, at: usize, n: nat)
    requires
        clean_state(state),
        n <= pieces.len(),
        forall|j: int| 0 <= j < pieces.len() ==> settles(#[trigger] pieces[j]),
    ensures
        clean_state(take_pieces(state, pieces, at, n)),
    decreases n,
{
    if n > 0 {
        lemma_clean_pieces(state, pieces, at, (n - 1) as nat);
        assert(settles(pieces[n - 1]));
    }
}

proof fn lemma_clean(text: Seq<char>, n: nat)
    requires
        n <= text.len(),
        text_settles(text),
    ensures
        clean_state(take_chars(text, n)),
    decreases n,
{
    if n > 0 {
        let m = (n - 1) as nat;
        lemma_clean(text, m);
        let c = text[m as int];
        if !separates(c) && !punctuation(c) {
            lemma_clean_pieces(
                take_chars(text, m),
                pieces_of(c),
                m as usize,
                pieces_of(c).len(),
            );
        }
    }
}

/// Runs of white space become one space, and none is left at either end. There is no other white
/// space in the normalized text, and neither punctuation nor combining marks.
pub proof fn law_normalized_is_clean(text: Seq<char>)
    requires
        text_settles(text),
    ensures
        single_spaced(normalized_chars(text)),
        normalized_chars(text).len() > 0 ==> normalized_chars(text).last() != ' ',
        forall|i: int|
            0 <= i < normalized_chars(text).len() ==> (#[trigger] normalized_chars(text)[i]) == ' '
                || letter(normalized_chars(text)[i]),
{
    lemma_clean(text, text.len());
}

/// Clean text is taken as it is.
proof fn lemma_clean_is_kept(chars: Seq<char>, n: nat)
    requires
        clean(chars),
        n <= chars.len() <= usize::MAX,
    ensures
        take_chars(chars, n) == (Normalized {
            chars: chars.take(n as int),
            origins: Seq::new(n, |i: int| i as usize),
            after_space: n == 0 || chars[n - 1] == ' ',
        }),
    decreases n,
{
    if n > 0 {
        let m = (n - 1) as nat;
        lemma_clean_is_kept(chars, m);
        let c = chars[m as int];
        let state = take_chars(chars, m);
        if c != ' ' {
            reveal_with_fuel(take_pieces, 2);
            assert(take_char(state, c, m as usize) == take_piece(
                state,
                c,
                lowered(c),
                m as usize,
            ));
        }
        assert(take_chars(chars, n).chars == chars.take(n as int));
        assert(take_chars(chars, n).origins == Seq::new(n, |i: int| i as usize));
    }
}

/// Normalizing normalized text changes nothing and maps each character to itself.
pub proof fn law_normalizing_again_changes_nothing(text: Seq<char>)
    requires
        text_settles(text),
        normalized_chars(text).len() <= usize::MAX,
    ensures
        normalized_chars(normalized_chars(text)) == normalized_chars(text),
        normalized_origins(normalized_chars(text)) == Seq::new(
            normalized_chars(text).len(),
            |i: int| i as usize,
        ),
{
    let chars = normalized_chars(text);
    lemma_clean(text, text.len());
    lemma_clean_is_kept(chars, chars.len());
    assert(chars.take(chars.len() as int) == chars);
}

proof fn lemma_ascii_settles(text: Seq<char>)
    requires
        is_ascii_chars(text),
    ensures
        text_settles(text),
{
}

/// ASCII text is normalized once and for all: its normalized form is clean, and normalizing that
/// again changes nothing and maps each character to itself.
pub proof fn law_ascii_is_normalized_once(text: Seq<char>)
    requires
        is_ascii_chars(text),
        normalized_chars(text).len() <= usize::MAX,
    ensures
        clean(normalized_chars(text)),
        normalized_chars(normalized_chars(text)) == normalized_chars(text),
        normalized_origins(normalized_chars(text)) == Seq::new(
            normalized_chars(text).len(),
            |i: int| i as usize,
        ),
{
    lemma_ascii_settles(text);
    lemma_clean(text, text.len());
    law_normalizing_again_changes_nothing(text);
}

/// What normalizing a part alone and normalizing it behind something else have to do with each
/// other: the second, which was at `start` when the part began, ends in the first. A separator may
/// have been dropped from the first, which has nothing in front of it.
spec fn aligned(start: Seq<char>, prefix: Seq<char>, whole: Normalized, alone: Normalized) -> bool {
    &&& whole.chars == prefix + alone.chars
    &&& if whole.after_space == alone.after_space {
        prefix == start || prefix == start.push(' ')
    } else {
        alone.chars.len() == 0 && alone.after_space && prefix == start
    }
}

proof fn lemma_aligned_space(
    start: Seq<char>,
    prefix: Seq<char>,
    whole: Normalized,
    alone: Normalized,
    at: usize,
    at_alone: usize,
) -> (next: Seq<char>)
    requires
        aligned(start, prefix, whole, alone),
    ensures
        aligned(start, next, take_space(whole, at), take_space(alone, at_alone)),
{
    if !whole.after_space && alone.after_space {
        prefix.push(' ')
    } else {
        prefix
    }
}

proof fn lemma_aligned_pieces(
    start: Seq<char>,
    prefix: Seq<char>,
    whole: Normalized,
    alone: Normalized,
    pieces: Seq<char>,
    at: usize,
    at_alone: usize,
    n: nat,
) -> (next: Seq<char>)
    requires
        aligned(start, prefix, whole, alone),
    ensures
        aligned(
            start,
            next,
            take_pieces(whole, pieces, at, n),
            take_pieces(alone, pieces, at_alone, n),
        ),
    decreases n,
{
    if n == 0 {
        prefix
    } else {
        let m = (n - 1) as nat;
        let mid = lemma_aligned_pieces(start, prefix, whole, alone, pieces, at, at_alone, m);
        let whole_mid = take_pieces(whole, pieces, at, m);
        let alone_mid = take_pieces(alone, pieces, at_alone, m);
        if separates(pieces[m as int]) {
            lemma_aligned_space(start, mid, whole_mid, alone_mid, at, at_alone)
        } else {
            let lower = lowered(pieces[m as int]);
            assert(mid + alone_mid.chars + lower == mid + (alone_mid.chars + lower));
            mid
        }
    }
}

proof fn lemma_part(before: Seq<char>, part: Seq<char>, after: Seq<char>, n: nat) -> (prefix: Seq<
    char,
>)
    requires
        n <= part.len(),
    ensures
        aligned(
            take_chars(before + part + after, before.len()).chars,
            prefix,
            take_chars(before + part + after, before.len() + n),
            take_chars(part, n),
        ),
    decreases n,
{
    let text = before + part + after;
    let start = take_chars(text, before.len()).chars;
    if n == 0 {
        start
    } else {
        let m = (n - 1) as nat;
        let prefix = lemma_part(before, part, after, m);
        let whole = take_chars(text, before.len() + m);
        let alone = take_chars(part, m);
        let c = part[m as int];
        let at = (before.len() + m) as usize;
        if separates(c) {
            lemma_aligned_space(start, prefix, whole, alone, at, m as usize)
        } else if punctuation(c) {
            prefix
        } else {
            let pieces = pieces_of(c);
            lemma_aligned_pieces(
                start,
                prefix,
                whole,
                alone,
                pieces,
                at,
                m as usize,
                pieces.len(),
            )
        }
    }
}

proof fn lemma_pieces_grow(state: Normalized, pieces: Seq<char>, at: usize, n: nat)
    ensures
        state.chars.is_prefix_of(take_pieces(state, pieces, at, n).chars),
    decreases n,
{
    if n > 0 {
        lemma_pieces_grow(state, pieces, at, (n - 1) as nat);
    }
}

proof fn lemma_grows(text: Seq<char>, n: nat, m: nat)
    requires
        n <= m,
    ensures
        take_chars(text, n).chars.is_prefix_of(take_chars(text, m).chars),
    decreases m,
{
    if n < m {
        let k = (m - 1) as nat;
        lemma_grows(text, n, k);
        let pieces = pieces_of(text[k as int]);
        lemma_pieces_grow(take_chars(text, k), pieces, k as usize, pieces.len());
    }
}

/// The normalized form of a part of a text stands in the normalized form of the text.
pub proof fn law_part_stands_in_whole(before: Seq<char>, part: Seq<char>, after: Seq<char>)
    ensures
        stands_in(normalized_chars(part), normalized_chars(before + part + after)),
{
    let text = before + part + after;
    let prefix = lemma_part(before, part, after, part.len());
    lemma_grows(text, before.len() + part.len(), text.len());
    let alone = take_chars(part, part.len()).chars;
    let q = normalized_chars(part);
    let c = normalized_chars(text);
    let at = prefix.len() as int;
    assert(forall|i: int| 0 <= i < alone.len() ==> (prefix + alone)[at + i] == alone[i]);
    if q.len() > 0 {
        assert(c.subrange(at, at + q.len()) == q);
        assert(occurs_at(q, c, at));
    } else {
        assert(c.subrange(0, 0) == q);
        assert(occurs_at(q, c, 0));
    }
}

/// A normalized character was made when the character that it comes from was taken.
proof fn lemma_made_from_origin(text: Seq<char>, n: nat, i: int)
    requires
        n <= text.len() <= usize::MAX,
        0 <= i < take_chars(text, n).origins.len(),
    ensures
        ({
            let origin = take_chars(text, n).origins[i] as nat;
            &&& origin < n
            &&& take_chars(text, origin).chars.len() <= i < take_chars(
                text,
                origin + 1,
            ).chars.len()
        }),
    decreases n,
{
    lemma_take_chars(text, n);
    let m = (n - 1) as nat;
    lemma_take_chars(text, m);
    lemma_take_char(take_chars(text, m), text[m as int], m as usize);
    let all = take_chars(text, m).origins;
    if i < all.len() {
        lemma_made_from_origin(text, m, i);
    }
}

/// A stretch of a normalized text that neither begins nor ends with a separator comes from the
/// part of the original text between the characters that its ends come from: it stands in the
/// normalized form of that part.
pub proof fn law_stretch_comes_from_its_origins(text: Seq<char>, start: int, end: int)
    requires
        text.len() <= usize::MAX,
        0 <= start <= end < normalized_chars(text).len(),
        normalized_chars(text)[start] != ' ',
        normalized_chars(text)[end] != ' ',
    ensures
        normalized_origins(text).len() == normalized_chars(text).len(),
        normalized_origins(text)[start] <= normalized_origins(text)[end] < text.len(),
        stands_in(
            normalized_chars(text).subrange(start, end + 1),
            normalized_chars(
                text.subrange(
                    normalized_origins(text)[start] as int,
                    normalized_origins(text)[end] + 1,
                ),
            ),
        ),
{
    let chars = normalized_chars(text);
    let stretch = chars.subrange(start, end + 1);
    let a = normalized_origins(text)[start] as int;
    let b = normalized_origins(text)[end] as int;
    law_mapping_follows_text(text);
    lemma_take_chars(text, text.len());
    lemma_made_from_origin(text, text.len(), start);
    lemma_made_from_origin(text, text.len(), end);
    let before = text.take(a);
    let part = text.subrange(a, b + 1);
    let after = text.skip(b + 1);
    assert(before + part + after == text);
    let prefix = lemma_part(before, part, after, part.len());
    let whole = take_chars(text, (b + 1) as nat).chars;
    lemma_grows(text, (b + 1) as nat, text.len());
    assert(forall|i: int| start <= i <= end ==> chars[i] == whole[i]);
    let at = start - prefix.len();
    let q = normalized_chars(part);
    assert(q.subrange(at, at + stretch.len()) == stretch);
    assert(occurs_at(stretch, q, at));
}

/// An ASCII digit or letter.
spec fn ascii_alphanumeric(c: char) -> bool {
    '0' <= c <= '9' || 'A' <= c <= 'Z' || 'a' <= c <= 'z'
}

/// ASCII white space.
spec fn ascii_space(c: char) -> bool {
    '\u{0009}' <= c <= '\u{000D}' || c == ' '
}

/// `made` is what becomes of the ASCII character `c`.
spec fn made_of(made: char, c: char) -> bool {
    ||| made == ' ' && ascii_space(c)
    ||| made == c && ('0' <= c <= '9' || 'a' <= c <= 'z')
    ||| made == (c as u32 + 32) as char && 'A' <= c <= 'Z'
    ||| made == c && ascii_control(c)
}

/// An ASCII control character that is no white space.
spec fn ascii_control(c: char) -> bool {
    c <= '\u{0008}' || '\u{000E}' <= c <= '\u{001F}' || c == '\u{007F}'
}

/// What holds of the normalized text in the making once `n` characters of an ASCII text were taken.
spec fn ascii_state(state: Normalized, text: Seq<char>, n: int) -> bool {
    let chars = state.chars;
    let origins = state.origins;
    &&& chars.len() == origins.len()
    &&& forall|i: int| 0 <= i < origins.len() ==> (#[trigger] origins[i]) < n
    &&& forall|i: int, j: int|
        0 <= i < j < origins.len() ==> (#[trigger] origins[i]) < (#[trigger] origins[j])
    &&& forall|i: int|
        0 <= i < chars.len() ==> made_of(#[trigger] chars[i], text[origins[i] as int])
    &&& forall|k: int|
        0 <= k < n && (ascii_alphanumeric(#[trigger] text[k]) || ascii_control(text[k]))
            ==> origins.contains(k as usize)
    &&& forall|i: int, k: int|
        0 < i < chars.len() && chars[i] == ' ' && origins[i - 1] < k < origins[i] ==> !(
        #[trigger] ascii_space(text[k]) && #[trigger] chars[i] == ' ')
    &&& forall|i: int|
        0 <= i < chars.len() && #[trigger] chars[i] == ' ' ==> i > 0 && chars[i - 1] != ' '
    &&& state.after_space == (chars.len() == 0 || chars.last() == ' ')
    &&& forall|i: int, k: int|
        0 <= i < chars.len() - 1 && chars[i] != ' ' && chars[i + 1] != ' ' && origins[i] < k
            < origins[i + 1] ==> !(#[trigger] ascii_space(text[k]) && #[trigger] chars[i] != ' ')
    &&& chars.len() > 0 && chars.last() != ' ' ==> forall|k: int|
        origins.last() < k < n ==> !ascii_space(#[trigger] text[k])
}

proof fn lemma_ascii_state(text: Seq<char>, n: nat)
    requires
        n <= text.len() <= usize::MAX,
        is_ascii_chars(text),
    ensures
        ascii_state(take_chars(text, n), text, n as int),
    decreases n,
{
    if n > 0 {
        let m = (n - 1) as nat;
        lemma_ascii_state(text, m);
        let c = text[m as int];
        let at = m as usize;
        let state = take_chars(text, m);
        let next = take_chars(text, n);
        assert(c <= '\u{007F}');
        reveal_with_fuel(take_pieces, 2);
        if ascii_space(c) {
            assert(next == take_space(state, at));
        } else if ascii_alphanumeric(c) || ascii_control(c) {
            assert(next.chars == state.chars.push(ascii_lower(c)));
            assert(next.origins == state.origins.push(at));
        } else {
            assert(next.chars == state.chars);
            assert(next.origins == state.origins);
        }
        assert forall|k: int|
            0 <= k < n && (ascii_alphanumeric(#[trigger] text[k]) || ascii_control(
                text[k],
            )) implies next.origins.contains(k as usize) by {
            if k < m {
                let i = state.origins.index_of(k as usize);
                assert(state.origins.contains(k as usize));
                assert(next.origins[i] == k as usize);
            } else {
                assert(next.origins[next.origins.len() - 1] == k as usize);
            }
        }
    }
}

/// Every ASCII letter and digit is kept, in its lowercase form, and nothing else is: each
/// normalized character is a digit or a small letter that stands in the text where the mapping
/// says, maybe capital, or a space for white space that stands there, or a control character as
/// it is; the mapping ascends from character to character and reaches every letter, digit and
/// control character of the text. A space stands between two of these exactly where white space
/// stands between them in the text, never twice, and comes from the first of that white space.
pub proof fn law_ascii_letters_and_digits_are_kept(text: Seq<char>)
    requires
        is_ascii_chars(text),
        text.len() <= usize::MAX,
    ensures
        ({
            let chars = normalized_chars(text);
            let origins = normalized_origins(text);
            &&& chars.len() == origins.len()
            &&& forall|i: int|
                0 <= i < chars.len() ==> (#[trigger] origins[i]) < text.len() && {
                    let c = text[origins[i] as int];
                    ||| chars[i] == ' ' && ('\u{0009}' <= c <= '\u{000D}' || c == ' ')
                    ||| chars[i] == c && ('0' <= c <= '9' || 'a' <= c <= 'z')
                    ||| chars[i] == (c as u32 + 32) as char && 'A' <= c <= 'Z'
                    ||| chars[i] == c && (c <= '\u{0008}' || '\u{000E}' <= c <= '\u{001F}' || c
                        == '\u{007F}')
                }
            &&& forall|i: int, j: int|
                0 <= i < j < origins.len() ==> (#[trigger] origins[i]) < (#[trigger] origins[j])
            &&& forall|k: int|
                0 <= k < text.len() && ('0' <= (#[trigger] text[k]) <= '9' || 'A' <= text[k] <= 'Z'
                    || 'a' <= text[k] <= 'z' || text[k] <= '\u{0008}' || '\u{000E}' <= text[k]
                    <= '\u{001F}' || text[k] == '\u{007F}') ==> origins.contains(k as usize)
            &&& forall|i: int, k: int|
                0 < i < chars.len() && (#[trigger] chars[i]) == ' ' && origins[i - 1] < k
                    < origins[i] ==> (#[trigger] text[k]) != ' ' && !('\u{0009}' <= text[k]
                    <= '\u{000D}')
            &&& forall|i: int|
                0 <= i < chars.len() && #[trigger] chars[i] == ' ' ==> 0 < i < chars.len() - 1
                    && chars[i - 1] != ' ' && chars[i + 1] != ' '
            &&& forall|i: int, k: int|
                0 <= i < chars.len() - 1 && (#[trigger] chars[i]) != ' ' && chars[i + 1] != ' '
                    && origins[i] < k < origins[i + 1] ==> (#[trigger] text[k]) != ' ' && !(
                '\u{0009}' <= text[k] <= '\u{000D}')
        }),
{
    lemma_ascii_state(text, text.len());
    let state = take_chars(text, text.len());
    let chars = normalized_chars(text);
    let origins = normalized_origins(text);
    let n = chars.len() as int;
    assert(chars == state.chars.take(n));
    assert(origins == state.origins.take(n));
    assert(n == state.chars.len() || (n == state.chars.len() - 1 && state.chars[n] == ' '));
    assert(forall|i: int| 0 <= i < n ==> #[trigger] chars[i] == state.chars[i]);
    assert(forall|i: int| 0 <= i < n ==> #[trigger] origins[i] == state.origins[i]);
    assert forall|i: int| 0 <= i < chars.len() implies (#[trigger] origins[i]) < text.len() && {
        let c = text[origins[i] as int];
        ||| chars[i] == ' ' && ('\u{0009}' <= c <= '\u{000D}' || c == ' ')
        ||| chars[i] == c && ('0' <= c <= '9' || 'a' <= c <= 'z')
        ||| chars[i] == (c as u32 + 32) as char && 'A' <= c <= 'Z'
        ||| chars[i] == c && (c <= '\u{0008}' || '\u{000E}' <= c <= '\u{001F}' || c == '\u{007F}')
    } by {
        assert(made_of(state.chars[i], text[state.origins[i] as int]));
    }
    assert forall|i: int, j: int| 0 <= i < j < origins.len() implies (#[trigger] origins[i])
        < (#[trigger] origins[j]) by {
        assert(state.origins[i] < state.origins[j]);
    }
    assert forall|i: int| 0 <= i < chars.len() && #[trigger] chars[i] == ' ' implies 0 < i
        < chars.len() - 1 && chars[i - 1] != ' ' && chars[i + 1] != ' ' by {
        assert(state.chars[i] == ' ');
        assert(state.chars[i - 1] != ' ');
        if i == n - 1 {
            if n == state.chars.len() {
                assert(state.chars.last() == state.chars[i]);
            } else {
                assert(state.chars[i + 1] == ' ');
            }
        } else if state.chars[i + 1] == ' ' {
            assert(state.chars[i + 1 - 1] != ' ');
        }
    }
    assert forall|i: int, k: int|
        0 <= i < chars.len() - 1 && (#[trigger] chars[i]) != ' ' && chars[i + 1] != ' '
            && origins[i] < k < origins[i + 1] implies (#[trigger] text[k]) != ' ' && !('\u{0009}'
        <= text[k] <= '\u{000D}') by {
        assert(state.chars[i] != ' ' && state.chars[i + 1] != ' ');
        assert(!ascii_space(text[k]));
    }
    assert forall|i: int, k: int|
        0 < i < chars.len() && (#[trigger] chars[i]) == ' ' && origins[i - 1] < k
            < origins[i] implies (#[trigger] text[k]) != ' ' && !('\u{0009}' <= text[k]
        <= '\u{000D}') by {
        assert(state.chars[i] == ' ');
        assert(!ascii_space(text[k]));
    }
    assert forall|k: int|
        0 <= k < text.len() && ('0' <= (#[trigger] text[k]) <= '9' || 'A' <= text[k] <= 'Z' || 'a'
            <= text[k] <= 'z' || text[k] <= '\u{0008}' || '\u{000E}' <= text[k] <= '\u{001F}'
            || text[k] == '\u{007F}') implies origins.contains(k as usize) by {
        assert(ascii_alphanumeric(text[k]) || ascii_control(text[k]));
        let i = state.origins.index_of(k as usize);
        assert(state.origins.contains(k as usize));
        assert(made_of(state.chars[i], text[k]));
        assert(i < origins.len());
        assert(origins[i] == k as usize);
    }
}

/// The normalized text is the same in both, whatever it comes from.
spec fn same_text(a: Normalized, b: Normalized) -> bool {
    a.chars == b.chars && a.after_space == b.after_space && a.chars.len() == a.origins.len()
        && b.chars.len() == b.origins.len()
}

proof fn lemma_same_pieces(
    a: Normalized,
    b: Normalized,
    pieces: Seq<char>,
    at: usize,
    at2: usize,
    n: nat,
)
    requires
        same_text(a, b),
    ensures
        same_text(take_pieces(a, pieces, at, n), take_pieces(b, pieces, at2, n)),
    decreases n,
{
    if n > 0 {
        lemma_same_pieces(a, b, pieces, at, at2, (n - 1) as nat);
    }
}

proof fn lemma_same_char(a: Normalized, b: Normalized, c: char, at: usize, at2: usize)
    requires
        same_text(a, b),
    ensures
        same_text(take_char(a, c, at), take_char(b, c, at2)),
{
    lemma_same_pieces(a, b, pieces_of(c), at, at2, pieces_of(c).len());
}

/// What is behind two places in texts, from which on the texts are the same, is taken alike.
proof fn lemma_same_rest(s: Seq<char>, i: nat, t: Seq<char>, j: nat, n: nat)
    requires
        i <= s.len(),
        j <= t.len(),
        s.skip(i as int) == t.skip(j as int),
        n <= s.len() - i,
        same_text(take_chars(s, i), take_chars(t, j)),
    ensures
        same_text(take_chars(s, i + n), take_chars(t, j + n)),
    decreases n,
{
    if n > 0 {
        let m = (n - 1) as nat;
        lemma_same_rest(s, i, t, j, m);
        assert(s.skip(i as int).len() == s.len() - i);
        assert(t.skip(j as int).len() == t.len() - j);
        assert(s.skip(i as int)[m as int] == s[(i + m) as int]);
        assert(t.skip(j as int)[m as int] == t[(j + m) as int]);
        lemma_same_char(
            take_chars(s, i + m),
            take_chars(t, j + m),
            s[(i + m) as int],
            (i + m) as usize,
            (j + m) as usize,
        );
        assert(((i + n) as nat - 1) as nat == i + m);
        assert(((j + n) as nat - 1) as nat == j + m);
    }
}

proof fn lemma_same_start(s: Seq<char>, t: Seq<char>, n: nat)
    requires
        n <= s.len(),
        n <= t.len(),
        s.take(n as int) == t.take(n as int),
    ensures
        take_chars(s, n) == take_chars(t, n),
    decreases n,
{
    if n > 0 {
        let m = (n - 1) as nat;
        assert(s.take(m as int) == s.take(n as int).take(m as int));
        assert(t.take(m as int) == t.take(n as int).take(m as int));
        lemma_same_start(s, t, m);
        assert(s.take(n as int)[m as int] == s[m as int]);
        assert(t.take(n as int)[m as int] == t[m as int]);
    }
}

proof fn lemma_lengths(text: Seq<char>, n: nat)
    ensures
        take_chars(text, n).chars.len() == take_chars(text, n).origins.len(),
    decreases n,
{
    if n > 0 {
        let m = (n - 1) as nat;
        lemma_lengths(text, m);
        lemma_take_char(take_chars(text, m), text[m as int], m as usize);
    }
}

/// Texts that are the same but for one stretch of each, and are taken alike up to the end of these
/// stretches, normalize to the same.
proof fn lemma_alike(s: Seq<char>, i: nat, t: Seq<char>, j: nat)
    requires
        i <= s.len(),
        j <= t.len(),
        s.skip(i as int) == t.skip(j as int),
        take_chars(s, i).chars == take_chars(t, j).chars,
        take_chars(s, i).after_space == take_chars(t, j).after_space,
    ensures
        normalized_chars(s) == normalized_chars(t),
{
    lemma_lengths(s, i);
    lemma_lengths(t, j);
    assert(s.skip(i as int).len() == s.len() - i);
    assert(t.skip(j as int).len() == t.len() - j);
    let n = (s.len() - i) as nat;
    lemma_same_rest(s, i, t, j, n);
    assert(i + n == s.len() && j + n == t.len());
}

/// All white space is alike: any of it can be a plain space, and the normalized text and its
/// mapping stay what they are.
pub proof fn law_all_white_space_is_alike(text: Seq<char>, i: int)
    requires
        0 <= i < text.len(),
        '\u{0009}' <= text[i] <= '\u{000D}' || text[i] == ' ' || text[i] == '\u{0085}' || text[i]
            == '\u{00A0}' || text[i] == '\u{1680}' || '\u{2000}' <= text[i] <= '\u{200A}'
            || text[i] == '\u{2028}' || text[i] == '\u{2029}' || text[i] == '\u{202F}' || text[i]
            == '\u{205F}' || text[i] == '\u{3000}',
    ensures
        normalized_chars(text.update(i, ' ')) == normalized_chars(text),
        normalized_origins(text.update(i, ' ')) == normalized_origins(text),
{
    lemma_same_but_one(text, text.update(i, ' '), i, text.len());
}

proof fn lemma_same_but_one(s: Seq<char>, t: Seq<char>, i: int, n: nat)
    requires
        0 <= i < s.len(),
        s.len() == t.len(),
        n <= s.len(),
        forall|k: int| 0 <= k < s.len() && k != i ==> s[k] == t[k],
        separates(s[i]),
        separates(t[i]),
    ensures
        take_chars(s, n) == take_chars(t, n),
    decreases n,
{
    if n > 0 {
        lemma_same_but_one(s, t, i, (n - 1) as nat);
    }
}

/// Punctuation does not count: without it the normalized text is the same. The ASCII punctuation
/// characters are meant, and dashes, quotation marks, bullets and the like.
pub proof fn law_punctuation_does_not_count(text: Seq<char>, i: int)
    requires
        0 <= i < text.len(),
        '!' <= text[i] <= '/' || ':' <= text[i] <= '@' || '[' <= text[i] <= '`' || '{' <= text[i]
            <= '~' || text[i] == '\u{00A1}' || text[i] == '\u{00A7}' || text[i] == '\u{00AB}'
            || text[i] == '\u{00B6}' || text[i] == '\u{00B7}' || text[i] == '\u{00BB}' || text[i]
            == '\u{00BF}' || '\u{2010}' <= text[i] <= '\u{2027}' || '\u{2030}' <= text[i]
            <= '\u{2043}' || '\u{2045}' <= text[i] <= '\u{2051}' || '\u{2053}' <= text[i]
            <= '\u{205E}' || '\u{2E00}' <= text[i] <= '\u{2E2E}' || '\u{2E30}' <= text[i]
            <= '\u{2E4F}' || '\u{3001}' <= text[i] <= '\u{3003}' || '\u{3008}' <= text[i]
            <= '\u{3011}' || '\u{3014}' <= text[i] <= '\u{301F}' || '\u{055A}' <= text[i]
            <= '\u{055F}' || '\u{060C}' <= text[i] <= '\u{060D}' || text[i] == '\u{061B}'
            || '\u{061D}' <= text[i] <= '\u{061F}' || '\u{066A}' <= text[i] <= '\u{066D}'
            || '\u{0964}' <= text[i] <= '\u{0965}' || '\u{2308}' <= text[i] <= '\u{230B}'
            || '\u{2768}' <= text[i] <= '\u{2775}' || '\u{27E6}' <= text[i] <= '\u{27EF}'
            || '\u{2983}' <= text[i] <= '\u{2998}' || text[i] == '\u{30FB}' || '\u{FE10}'
            <= text[i] <= '\u{FE19}' || '\u{FE30}' <= text[i] <= '\u{FE52}' || '\u{FE54}'
            <= text[i] <= '\u{FE61}' || '\u{FF01}' <= text[i] <= '\u{FF03}' || '\u{FF05}'
            <= text[i] <= '\u{FF0A}' || '\u{FF0C}' <= text[i] <= '\u{FF0F}' || '\u{FF1A}'
            <= text[i] <= '\u{FF1B}' || '\u{FF1F}' <= text[i] <= '\u{FF20}' || '\u{FF3B}'
            <= text[i] <= '\u{FF3D}' || '\u{FF5F}' <= text[i] <= '\u{FF65}',
    ensures
        normalized_chars(text.remove(i)) == normalized_chars(text),
{
    reveal(script_punctuation);
    lemma_dropped(text, i);
}

/// A character that adds nothing can be left out.
proof fn lemma_dropped(text: Seq<char>, i: int)
    requires
        0 <= i < text.len(),
        take_char(take_chars(text, i as nat), text[i], i as usize).chars == take_chars(
            text,
            i as nat,
        ).chars,
        take_char(take_chars(text, i as nat), text[i], i as usize).after_space == take_chars(
            text,
            i as nat,
        ).after_space,
    ensures
        normalized_chars(text.remove(i)) == normalized_chars(text),
{
    let rest = text.remove(i);
    assert(rest.take(i) == text.take(i));
    lemma_same_start(rest, text, i as nat);
    assert(rest.skip(i) == text.skip(i + 1));
    assert((i + 1) as nat - 1 == i);
    lemma_alike(rest, i as nat, text, (i + 1) as nat);
}

proof fn lemma_marks_only(state: Normalized, pieces: Seq<char>, at: usize, n: nat)
    requires
        n <= pieces.len(),
        forall|k: int| 0 <= k < pieces.len() ==> '\u{0300}' <= #[trigger] pieces[k] <= '\u{036F}',
    ensures
        take_pieces(state, pieces, at, n) == state,
    decreases n,
{
    if n > 0 {
        lemma_marks_only(state, pieces, at, (n - 1) as nat);
        let c = pieces[n - 1];
        assert(!separates(c));
    }
}

/// Combining diacritical marks do not count: without them the normalized text is the same.
pub proof fn law_diacritics_do_not_count(text: Seq<char>, i: int)
    requires
        0 <= i < text.len(),
        '\u{0300}' <= text[i] <= '\u{036F}',
        forall|k: int|
            0 <= k < nfkd_chars(seq![text[i]]).len() ==> '\u{0300}' <= #[trigger] nfkd_chars(
                seq![text[i]],
            )[k] <= '\u{036F}',
    ensures
        normalized_chars(text.remove(i)) == normalized_chars(text),
{
    let c = text[i];
    let pieces = nfkd_chars(seq![c]);
    lemma_marks_only(take_chars(text, i as nat), pieces, i as usize, pieces.len());
    assert(!separates(c));
    assert(pieces_of(c) == pieces);
    lemma_dropped(text, i);
}

/// The case of ASCII letters does not count: the normalized text and its mapping are the same with
/// a small letter in place of a capital one.
pub proof fn law_case_does_not_count(text: Seq<char>, i: int, small: char)
    requires
        0 <= i < text.len(),
        'A' <= text[i] <= 'Z',
        small as u32 == text[i] as u32 + 32,
    ensures
        normalized_chars(text.update(i, small)) == normalized_chars(text),
        normalized_origins(text.update(i, small)) == normalized_origins(text),
{
    lemma_same_case(text, text.update(i, small), i, text.len());
}

proof fn lemma_same_case(s: Seq<char>, t: Seq<char>, i: int, n: nat)
    requires
        0 <= i < s.len(),
        s.len() == t.len(),
        n <= s.len(),
        forall|k: int| 0 <= k < s.len() && k != i ==> s[k] == t[k],
        'A' <= s[i] <= 'Z',
        t[i] as u32 == s[i] as u32 + 32,
    ensures
        take_chars(s, n) == take_chars(t, n),
    decreases n,
{
    if n > 0 {
        let m = (n - 1) as nat;
        lemma_same_case(s, t, i, m);
        if m == i {
            reveal_with_fuel(take_pieces, 2);
            let state = take_chars(s, m);
            assert(ascii_lower(s[i]) == ascii_lower(t[i]));
            assert(take_char(state, s[i], m as usize) == take_char(state, t[i], m as usize));
        }
    }
}

/// The character is beyond ASCII and one of the letters, digits and symbols: it lies in one of the
/// stretches of code points that have neither white space nor punctuation nor combining diacritical
/// marks in them. (Stretches of a few code points only are left out.)
pub open spec fn in_common_block(c: char) -> bool {
    ||| '\u{00AC}' <= c <= '\u{00B5}'
    ||| '\u{00B8}' <= c <= '\u{00BA}'
    ||| '\u{00BC}' <= c <= '\u{00BE}'
    ||| '\u{00C0}' <= c <= '\u{02FF}'
    ||| '\u{0370}' <= c <= '\u{037D}'
    ||| '\u{0388}' <= c <= '\u{0559}'
    ||| '\u{0560}' <= c <= '\u{0588}'
    ||| '\u{05C7}' <= c <= '\u{05F2}'
    ||| '\u{0620}' <= c <= '\u{0669}'
    ||| '\u{066E}' <= c <= '\u{06D3}'
    ||| '\u{06D5}' <= c <= '\u{06FF}'
    ||| '\u{070E}' <= c <= '\u{07F6}'
    ||| '\u{085F}' <= c <= '\u{0963}'
    ||| '\u{0971}' <= c <= '\u{09FC}'
    ||| '\u{09FE}' <= c <= '\u{0A75}'
    ||| '\u{0A77}' <= c <= '\u{0AEF}'
    ||| '\u{0AF1}' <= c <= '\u{0C76}'
    ||| '\u{0C85}' <= c <= '\u{0DF3}'
    ||| '\u{0DF5}' <= c <= '\u{0E4E}'
    ||| '\u{0E5C}' <= c <= '\u{0F03}'
    ||| '\u{1050}' <= c <= '\u{10FA}'
    ||| '\u{10FC}' <= c <= '\u{135F}'
    ||| '\u{1369}' <= c <= '\u{13FF}'
    ||| '\u{1401}' <= c <= '\u{166D}'
    ||| '\u{1737}' <= c <= '\u{17D3}'
    ||| '\u{180B}' <= c <= '\u{1943}'
    ||| '\u{1946}' <= c <= '\u{1A1D}'
    ||| '\u{1AAE}' <= c <= '\u{1B4D}'
    ||| '\u{1CD4}' <= c <= '\u{1FFF}'
    ||| '\u{2070}' <= c <= '\u{207C}'
    ||| '\u{207F}' <= c <= '\u{208C}'
    ||| '\u{208F}' <= c <= '\u{2307}'
    ||| '\u{230C}' <= c <= '\u{2328}'
    ||| '\u{232B}' <= c <= '\u{2767}'
    ||| '\u{2776}' <= c <= '\u{27C4}'
    ||| '\u{27F0}' <= c <= '\u{2982}'
    ||| '\u{2999}' <= c <= '\u{29D7}'
    ||| '\u{29FE}' <= c <= '\u{2CF8}'
    ||| '\u{2D00}' <= c <= '\u{2D6F}'
    ||| '\u{2D71}' <= c <= '\u{2DFF}'
    ||| '\u{2E64}' <= c <= '\u{2FFF}'
    ||| '\u{303E}' <= c <= '\u{309F}'
    ||| '\u{30A1}' <= c <= '\u{30FA}'
    ||| '\u{30FC}' <= c <= '\u{A4FD}'
    ||| '\u{A500}' <= c <= '\u{A60C}'
    ||| '\u{A6F8}' <= c <= '\u{A873}'
    ||| '\u{AAF2}' <= c <= '\u{ABEA}'
    ||| '\u{ABEC}' <= c <= '\u{D7FF}'
    ||| '\u{E000}' <= c <= '\u{FD3D}'
    ||| '\u{FD40}' <= c <= '\u{FE0F}'
    ||| '\u{FE6C}' <= c <= '\u{FF00}'
    ||| '\u{FF10}' <= c <= '\u{FF19}'
    ||| '\u{FF21}' <= c <= '\u{FF3A}'
    ||| '\u{FF41}' <= c <= '\u{FF5A}'
    ||| '\u{FF66}' <= c <= '\u{100FF}'
    ||| '\u{10103}' <= c <= '\u{1039E}'
    ||| '\u{103D1}' <= c <= '\u{1056E}'
    ||| '\u{10570}' <= c <= '\u{10856}'
    ||| '\u{12000}' <= c <= '\u{1246F}'
    ||| '\u{12475}' <= c <= '\u{12FF0}'
    ||| '\u{12FF3}' <= c <= '\u{16A6D}'
    ||| '\u{16FE3}' <= c <= '\u{1BC9E}'
    ||| '\u{1BCA0}' <= c <= '\u{1DA86}'
    ||| '\u{1DA8C}' <= c <= '\u{1E5FE}'
    ||| '\u{1E600}' <= c <= '\u{1E95D}'
    ||| '\u{1E960}' <= c <= '\u{10FFFF}'
}

proof fn lemma_common_block(c: char)
    requires
        in_common_block(c),
    ensures
        letter(c),
        c > '\u{007F}',
{
    reveal(script_punctuation);
}

/// A letter beyond ASCII that has no parts is kept, in its lowercase form, and the whole of it
/// comes from the letter. So are digits and symbols.
pub proof fn law_letters_are_kept(text: Seq<char>, c: char)
    requires
        text.len() < usize::MAX,
        in_common_block(c),
        nfkd_chars(seq![c]) == seq![c],
        lowercase_chars(c).len() > 0,
        lowercase_chars(c).last() != ' ',
    ensures
        ({
            let more = normalized_chars(text.push(c));
            let n = lowercase_chars(c).len();
            &&& more.len() >= n
            &&& more.subrange(more.len() - n, more.len() as int) == lowercase_chars(c)
            &&& more.len() == normalized_origins(text.push(c)).len()
            &&& forall|k: int|
                more.len() - n <= k < more.len() ==> (#[trigger] normalized_origins(
                    text.push(c),
                )[k]) == text.len()
            &&& more.subrange(0, more.len() - n) == normalized_chars(text) || more.subrange(
                0,
                more.len() - n,
            ) == normalized_chars(text).push(' ')
        }),
{
    let whole = text.push(c);
    let n = text.len();
    let state = take_chars(text, n);
    lemma_common_block(c);
    assert(whole.take(n as int) == text.take(n as int));
    lemma_same_start(whole, text, n);
    lemma_lengths(text, n);
    reveal_with_fuel(take_pieces, 2);
    assert(whole[n as int] == c);
    assert(pieces_of(c) == seq![c]);
    let next = take_chars(whole, n + 1);
    assert(next == take_char(state, c, n as usize));
    assert(next.chars == state.chars + lowercase_chars(c));
    assert(next.chars.last() == lowercase_chars(c).last());
    let more = normalized_chars(whole);
    let k = lowercase_chars(c).len();
    assert(more.subrange(more.len() - k, more.len() as int) == lowercase_chars(c));
    assert(more.subrange(0, more.len() - k) == state.chars);
    if state.chars.len() > 0 && state.chars.last() == ' ' {
        assert(normalized_chars(text).push(' ') == state.chars);
    }
}

proof fn lemma_decomposed(
    a: Normalized,
    b: Normalized,
    s: Seq<char>,
    from: nat,
    pieces: Seq<char>,
    at: usize,
    n: nat,
)
    requires
        same_text(a, b),
        b == take_chars(s, from),
        from + pieces.len() <= s.len(),
        s.subrange(from as int, (from + pieces.len()) as int) == pieces,
        n <= pieces.len(),
        forall|k: int|
            0 <= k < pieces.len() ==> (#[trigger] pieces[k]) <= '\u{007F}' || nfkd_chars(
                seq![pieces[k]],
            ) == seq![pieces[k]],
    ensures
        same_text(take_pieces(a, pieces, at, n), take_chars(s, from + n)),
    decreases n,
{
    if n > 0 {
        let m = (n - 1) as nat;
        lemma_decomposed(a, b, s, from, pieces, at, m);
        let p = pieces[m as int];
        let part = s.subrange(from as int, (from + pieces.len()) as int);
        assert(part[m as int] == s[(from + m) as int]);
        let whole = take_pieces(a, pieces, at, m);
        let alone = take_chars(s, from + m);
        let place = (from + m) as usize;
        reveal_with_fuel(take_pieces, 2);
        assert(pieces_of(p) == seq![p]);
        assert(take_char(alone, p, place) == take_piece(alone, p, lowered(p), place));
        assert(same_text(take_piece(whole, p, lowered(p), at), take_char(alone, p, place)));
    }
}

/// Composed and compatible forms are what they are made of: a letter beyond ASCII normalizes as the
/// characters do into which it decomposes, wherever it stands.
pub proof fn law_letters_are_their_parts(text: Seq<char>, i: int)
    requires
        0 <= i < text.len(),
        in_common_block(text[i]),
        forall|k: int|
            0 <= k < nfkd_chars(seq![text[i]]).len() ==> {
                let p = #[trigger] nfkd_chars(seq![text[i]])[k];
                p <= '\u{007F}' || nfkd_chars(seq![p]) == seq![p]
            },
    ensures
        normalized_chars(text.take(i) + nfkd_chars(seq![text[i]]) + text.skip(i + 1))
            == normalized_chars(text),
{
    let c = text[i];
    let parts = nfkd_chars(seq![c]);
    let apart = text.take(i) + parts + text.skip(i + 1);
    lemma_common_block(c);
    assert(apart.take(i) == text.take(i));
    lemma_same_start(apart, text, i as nat);
    lemma_lengths(text, i as nat);
    assert(apart.subrange(i, i + parts.len()) == parts);
    let state = take_chars(text, i as nat);
    assert(pieces_of(c) == parts);
    lemma_decomposed(state, state, apart, i as nat, parts, i as usize, parts.len());
    assert(take_chars(text, (i + 1) as nat) == take_pieces(
        state,
        parts,
        i as usize,
        parts.len(),
    ));
    let j = (i + parts.len()) as nat;
    assert(apart.skip(j as int) == text.skip(i + 1));
    lemma_alike(apart, j, text, (i + 1) as nat);
}

/// The mapping tells when a normalized character was made: the text up to the character that it
/// comes from does not have it yet, with that character it does.
pub proof fn law_mapping_tells_the_origin(text: Seq<char>, i: int)
    requires
        text.len() <= usize::MAX,
        0 <= i < normalized_chars(text).len(),
        normalized_chars(text)[i] != ' ',
    ensures
        ({
            let origin = normalized_origins(text)[i] as int;
            &&& 0 <= origin < text.len()
            &&& normalized_chars(text.take(origin)).len() <= i
            &&& i < normalized_chars(text.take(origin + 1)).len()
            &&& normalized_chars(text.take(origin + 1))[i] == normalized_chars(text)[i]
        }),
{
    lemma_lengths(text, text.len());
    lemma_made_from_origin(text, text.len(), i);
    let origin = normalized_origins(text)[i] as int;
    let n = origin as nat;
    assert(text.take(origin).take(origin) == text.take(origin));
    lemma_same_start(text.take(origin), text, n);
    assert(text.take(origin + 1).take(origin + 1) == text.take(origin + 1));
    lemma_same_start(text.take(origin + 1), text, n + 1);
    lemma_grows(text, n + 1, text.len());
    assert(take_chars(text, n + 1).chars[i] == take_chars(text, text.len()).chars[i]);
}

proof fn lemma_space_is_last(text: Seq<char>, n: nat)
    ensures
        ({
            let state = take_chars(text, n);
            state.after_space ==> state.chars.len() == 0 || state.chars.last() == ' '
        }),
    decreases n,
{
    if n > 0 {
        let m = (n - 1) as nat;
        lemma_space_is_last(text, m);
        let pieces = pieces_of(text[m as int]);
        lemma_space_is_last_piece(take_chars(text, m), pieces, m as usize, pieces.len());
    }
}

proof fn lemma_space_is_last_piece(state: Normalized, pieces: Seq<char>, at: usize, n: nat)
    requires
        state.after_space ==> state.chars.len() == 0 || state.chars.last() == ' ',
    ensures
        ({
            let next = take_pieces(state, pieces, at, n);
            next.after_space ==> next.chars.len() == 0 || next.chars.last() == ' '
        }),
    decreases n,
{
    if n > 0 {
        lemma_space_is_last_piece(state, pieces, at, (n - 1) as nat);
    }
}

/// What one more character without parts adds, and what stands in front of it.
proof fn lemma_pushed(text: Seq<char>, c: char)
    requires
        text.len() < usize::MAX,
        letter(c),
        pieces_of(c) == seq![c],
        lowered(c).len() > 0,
        lowered(c).last() != ' ',
    ensures
        ({
            let state = take_chars(text, text.len());
            let whole = text.push(c);
            &&& normalized_chars(whole) == state.chars + lowered(c)
            &&& take_chars(whole, whole.len()).chars == normalized_chars(whole)
            &&& normalized_origins(whole) == state.origins + copies(
                text.len() as usize,
                lowered(c).len(),
            )
        }),
{
    let whole = text.push(c);
    let n = text.len();
    let state = take_chars(text, n);
    assert(whole.take(n as int) == text.take(n as int));
    lemma_same_start(whole, text, n);
    reveal_with_fuel(take_pieces, 2);
    assert(whole[n as int] == c);
    let next = take_chars(whole, n + 1);
    assert(next == take_char(state, c, n as usize));
    assert(next.chars == state.chars + lowered(c));
    assert(next.chars.last() == lowered(c).last());
}

/// A letter or digit is kept in any text, behind what is in front of it, and in its lowercase
/// form. ASCII letters and digits are meant, and what is beyond ASCII and has no parts. Where
/// white space stands right in front of it, behind anything that was kept, a space stands between
/// the two; where a letter or digit stands right in front of it, nothing does.
pub proof fn law_letter_follows_what_is_in_front(text: Seq<char>, c: char, lower: Seq<char>)
    requires
        text.len() < usize::MAX,
        ('0' <= c <= '9' || 'a' <= c <= 'z') && lower == seq![c] || 'A' <= c <= 'Z' && lower
            == seq![(c as u32 + 32) as char] || in_common_block(c) && nfkd_chars(seq![c])
            == seq![c] && lower == lowercase_chars(c),
        lower.len() > 0,
        lower.last() != ' ',
    ensures
        text.len() == 0 ==> normalized_chars(text.push(c)) == lower,
        text.len() > 0 && ({
            let w = text.last();
            '\u{0009}' <= w <= '\u{000D}' || w == ' ' || w == '\u{0085}' || w == '\u{00A0}' || w
                == '\u{1680}' || '\u{2000}' <= w <= '\u{200A}' || w == '\u{2028}' || w == '\u{2029}'
                || w == '\u{202F}' || w == '\u{205F}' || w == '\u{3000}'
        }) && normalized_chars(text).len() > 0 ==> normalized_chars(text.push(c))
            == normalized_chars(text) + seq![' '] + lower,
        text.len() > 0 && ({
            let d = text.last();
            '0' <= d <= '9' || 'a' <= d <= 'z' || 'A' <= d <= 'Z' || in_common_block(d)
                && nfkd_chars(seq![d]) == seq![d] && lowercase_chars(d).len() > 0
                && lowercase_chars(d).last() != ' '
        }) ==> normalized_chars(text.push(c)) == normalized_chars(text) + lower,
        forall|k: int|
            normalized_chars(text.push(c)).len() - lower.len() <= k < normalized_chars(
                text.push(c),
            ).len() ==> #[trigger] normalized_origins(text.push(c))[k] == text.len(),
{
    if in_common_block(c) {
        lemma_common_block(c);
    }
    assert(pieces_of(c) == seq![c]);
    assert(lowered(c) == lower);
    lemma_pushed(text, c);
    lemma_lengths(text, text.len());
    let n = text.len();
    let state = take_chars(text, n);
    lemma_space_is_last(text, n);
    if n > 0 {
        let d = text.last();
        let before = text.drop_last();
        assert(before.push(d) == text);
        let m = (n - 1) as nat;
        if separates(d) {
            lemma_space_is_last(text, m);
            assert(state == take_space(take_chars(text, m), m as usize));
            if state.chars.len() > 0 {
                assert(state.chars.last() == ' ');
                assert(normalized_chars(text) + seq![' '] == state.chars);
            }
        } else if '0' <= d <= '9' || 'a' <= d <= 'z' || 'A' <= d <= 'Z' || (in_common_block(d)
            && nfkd_chars(seq![d]) == seq![d] && lowercase_chars(d).len() > 0 && lowercase_chars(
            d,
        ).last() != ' ') {
            if in_common_block(d) {
                lemma_common_block(d);
            }
            assert(pieces_of(d) == seq![d]);
            lemma_pushed(before, d);
        }
    }
    assert(normalized_origins(text.push(c)) == state.origins + copies(n as usize, lower.len()));
}

} // verus!
