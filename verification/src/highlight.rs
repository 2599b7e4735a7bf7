//! Which part of a text is highlighted.
use compact_str::CompactString;
use vstd::prelude::*;

use crate::bridge::{compact, compact_chars};
use crate::text::{chars_of, text_between};

verus! {

/// The smallest of the indices.
pub open spec fn lowest(indices: Seq<u32>) -> u32
    recommends
        indices.len() > 0,
    decreases indices.len(),
{
    if indices.len() <= 1 {
        indices[0]
    } else if indices.last() < lowest(indices.drop_last()) {
        indices.last()
    } else {
        lowest(indices.drop_last())
    }
}

/// The largest of the indices.
pub open spec fn highest(indices: Seq<u32>) -> u32
    recommends
        indices.len() > 0,
    decreases indices.len(),
{
    if indices.len() <= 1 {
        indices[0]
    } else if indices.last() > highest(indices.drop_last()) {
        indices.last()
    } else {
        highest(indices.drop_last())
    }
}

/// The first highlighted character of a text with `n` characters. An index behind the end of the
/// text counts as its beginning.
pub open spec fn highlight_start(n: int, indices: Seq<u32>) -> int {
    if indices.len() == 0 {
        n
    } else if lowest(indices) < n {
        lowest(indices) as int
    } else {
        0
    }
}

/// The character behind the last highlighted one. An index behind the end of the text counts as
/// its end.
pub open spec fn highlight_end(n: int, indices: Seq<u32>) -> int {
    if indices.len() == 0 {
        n
    } else if highest(indices) < n {
        highest(indices) + 1
    } else {
        n
    }
}

/// The text before, in and behind the highlighted part.
pub open spec fn highlighted(text: Seq<char>, indices: Seq<u32>) -> (Seq<char>, Seq<char>, Seq<
    char,
>) {
    let start = highlight_start(text.len() as int, indices);
    let end = highlight_end(text.len() as int, indices);
    (text.take(start), text.subrange(start, end), text.skip(end))
}

proof fn lemma_extremes(indices: Seq<u32>, i: int)
    requires
        0 <= i < indices.len(),
    ensures
        lowest(indices) <= indices[i] <= highest(indices),
    decreases indices.len(),
{
    if indices.len() > 1 {
        if i < indices.len() - 1 {
            lemma_extremes(indices.drop_last(), i);
        } else {
            lemma_extremes(indices.drop_last(), 0);
        }
    }
}

/// In an ascending list the first index is the smallest and the last one the largest.
pub proof fn lemma_ascending_extremes(indices: Seq<u32>)
    requires
        indices.len() > 0,
        forall|i: int, j: int|
            0 <= i <= j < indices.len() ==> #[trigger] indices[i] <= #[trigger] indices[j],
    ensures
        lowest(indices) == indices[0],
        highest(indices) == indices.last(),
    decreases indices.len(),
{
    if indices.len() > 1 {
        lemma_ascending_extremes(indices.drop_last());
    }
}

/// The highlighted part lies within the text.
pub proof fn lemma_highlight_in_text(n: int, indices: Seq<u32>)
    requires
        n >= 0,
    ensures
        0 <= highlight_start(n, indices) <= highlight_end(n, indices) <= n,
{
    if indices.len() > 0 {
        lemma_extremes(indices, 0);
    }
}

/// Nothing is lost: the three parts put together are the text.
pub proof fn law_parts_make_the_text(text: Seq<char>, indices: Seq<u32>)
    ensures
        ({
            let (prefix, middle, suffix) = highlighted(text, indices);
            prefix + middle + suffix == text
        }),
{
    lemma_highlight_in_text(text.len() as int, indices);
    let (prefix, middle, suffix) = highlighted(text, indices);
}

/// Every marked character is in the highlighted part.
pub proof fn law_marked_is_highlighted(text: Seq<char>, indices: Seq<u32>, i: int)
    requires
        0 <= i < indices.len(),
        forall|j: int| 0 <= j < indices.len() ==> (#[trigger] indices[j]) < text.len(),
    ensures
        highlight_start(text.len() as int, indices) <= indices[i] < highlight_end(
            text.len() as int,
            indices,
        ),
{
    lemma_extremes(indices, i);
    lemma_extreme_is_index(indices);
}

proof fn lemma_extreme_is_index(indices: Seq<u32>)
    requires
        indices.len() > 0,
    ensures
        indices.contains(lowest(indices)),
        indices.contains(highest(indices)),
    decreases indices.len(),
{
    if indices.len() > 1 {
        let rest = indices.drop_last();
        lemma_extreme_is_index(rest);
    }
}

/// Cuts a text into what stands before, in and behind its highlighted part, which reaches from
/// the lowest to the highest of the given character indices. Without indices all of the text
/// stands before.
pub fn resolve_highlight(raw_text: &str, indices: &[u32]) -> (r: (
    CompactString,
    CompactString,
    CompactString,
))
    ensures
        (compact_chars(r.0), compact_chars(r.1), compact_chars(r.2)) == highlighted(
            raw_text@,
            indices@,
        ),
{
    let chars = chars_of(raw_text);
    let n = chars.len();
    let mut start: usize = n;
    let mut end: usize = n;
    if indices.len() > 0 {
        let mut low: u32 = indices[0];
        let mut high: u32 = indices[0];
        let mut i: usize = 1;
        while i < indices.len()
            invariant
                1 <= i <= indices@.len(),
                low == lowest(indices@.take(i as int)),
                high == highest(indices@.take(i as int)),
            decreases indices.len() - i,
        {
            proof {
                assert(indices@.take(i as int + 1).drop_last() == indices@.take(i as int));
            }
            if indices[i] < low {
                low = indices[i];
            }
            if indices[i] > high {
                high = indices[i];
            }
            i = i + 1;
        }
        assert(indices@.take(i as int) == indices@);
        start = if (low as u64) < n as u64 {
            low as usize
        } else {
            0
        };
        end = if (high as u64) < n as u64 {
            high as usize + 1
        } else {
            n
        };
    }
    proof {
        lemma_highlight_in_text(n as int, indices@);
    }
    (
        compact(&text_between(&chars, 0, start)),
        compact(&text_between(&chars, start, end)),
        compact(&text_between(&chars, end, n)),
    )
}

/// The three dots that stand for omitted context.
pub open spec fn dots() -> Seq<char> {
    seq!['.', '.', '.']
}

/// A context cut to `buffer_size` characters: the last ones in front of a match, the first ones
/// behind it, with dots in place of the others.
pub open spec fn buffered(text: Seq<char>, buffer_size: int, is_prefix: bool) -> Seq<char> {
    if text.len() <= buffer_size {
        text
    } else if is_prefix {
        dots() + text.skip(text.len() - buffer_size)
    } else {
        text.take(buffer_size) + dots()
    }
}

/// Cuts a context to the given number of characters.
pub fn apply_buffer(text: &str, buffer_size: usize, is_prefix: bool) -> (r: CompactString)
    ensures
        compact_chars(r) == buffered(text@, buffer_size as int, is_prefix),
{
    compact(&clip(&chars_of(text), buffer_size, is_prefix))
}

/// Cuts a context to the given number of characters.
pub(crate) fn clip(chars: &[char], buffer_size: usize, is_prefix: bool) -> (r: String)
    ensures
        r@ == buffered(chars@, buffer_size as int, is_prefix),
{
    let n = chars.len();
    if n <= buffer_size {
        return text_between(chars, 0, n);
    }
    if is_prefix {
        let tail = chars_of(&text_between(chars, n - buffer_size, n));
        let mut r = String::new();
        r.push('.');
        r.push('.');
        r.push('.');
        let mut i: usize = 0;
        while i < tail.len()
            invariant
                i <= tail@.len(),
                r@ == dots() + tail@.take(i as int),
            decreases tail.len() - i,
        {
            r.push(tail[i]);
            i = i + 1;
        }
        r
    } else {
        let mut r = text_between(chars, 0, buffer_size);
        r.push('.');
        r.push('.');
        r.push('.');
        r
    }
}

/// A cut context has at most three characters more than asked for.
pub proof fn law_buffer_bounds_length(text: Seq<char>, buffer_size: int, is_prefix: bool)
    requires
        buffer_size >= 0,
    ensures
        buffered(text, buffer_size, is_prefix).len() <= buffer_size + 3,
{
}

/// The context in front of a match ends where the match begins: whatever the size, its last
/// characters are those that stand right before the match, as many as were asked for or as there
/// are. Where any were left out, three dots stand for them, else nothing was changed.
pub proof fn law_cut_prefix_is_next_to_the_match(prefix: Seq<char>, buffer_size: int)
    requires
        buffer_size >= 0,
    ensures
        ({
            let cut = buffered(prefix, buffer_size, true);
            let n = if prefix.len() < buffer_size {
                prefix.len() as int
            } else {
                buffer_size
            };
            &&& cut.len() >= n
            &&& forall|k: int|
                1 <= k <= n ==> cut[cut.len() - k] == #[trigger] prefix[prefix.len() - k]
            &&& prefix.len() <= buffer_size ==> cut == prefix
            &&& prefix.len() > buffer_size ==> cut.len() == buffer_size + 3 && cut[0] == '.'
                && cut[1] == '.' && cut[2] == '.'
        }),
{
    let cut = buffered(prefix, buffer_size, true);
    let n = if prefix.len() < buffer_size {
        prefix.len() as int
    } else {
        buffer_size
    };
    assert forall|k: int| 1 <= k <= n implies cut[cut.len() - k] == #[trigger] prefix[prefix.len()
        - k] by {}
}

/// The context behind a match begins where the match ends: whatever the size, its first characters
/// are those that stand right behind the match, as many as were asked for or as there are. Where
/// any were left out, three dots stand for them, else nothing was changed.
pub proof fn law_cut_suffix_is_next_to_the_match(suffix: Seq<char>, buffer_size: int)
    requires
        buffer_size >= 0,
    ensures
        ({
            let cut = buffered(suffix, buffer_size, false);
            let n = if suffix.len() < buffer_size {
                suffix.len() as int
            } else {
                buffer_size
            };
            &&& cut.len() >= n
            &&& forall|k: int| 0 <= k < n ==> cut[k] == #[trigger] suffix[k]
            &&& suffix.len() <= buffer_size ==> cut == suffix
            &&& suffix.len() > buffer_size ==> cut.len() == buffer_size + 3 && cut[buffer_size]
                == '.' && cut[buffer_size + 1] == '.' && cut[buffer_size + 2] == '.'
        }),
{
}

/// What is highlighted reaches from the first to the last of the marked characters, both
/// included; what stands before and behind it is the rest of the text.
pub proof fn law_highlight_reaches_from_first_to_last(
    text: Seq<char>,
    indices: Seq<u32>,
    first: int,
    last: int,
)
    requires
        0 <= first < indices.len(),
        0 <= last < indices.len(),
        forall|i: int|
            0 <= i < indices.len() ==> indices[first] <= #[trigger] indices[i] <= indices[last],
        indices[last] < text.len(),
    ensures
        highlighted(text, indices).0 == text.subrange(0, indices[first] as int),
        highlighted(text, indices).1 == text.subrange(
            indices[first] as int,
            indices[last] + 1,
        ),
        highlighted(text, indices).2 == text.subrange(indices[last] + 1, text.len() as int),
{
    lemma_extremes(indices, first);
    lemma_extremes(indices, last);
    lemma_extreme_is_index(indices);
}

/// Where nothing is marked, nothing is highlighted, and all of the text stands before.
pub proof fn law_nothing_marked_nothing_highlighted(text: Seq<char>)
    ensures
        highlighted(text, Seq::empty()).0 == text,
        highlighted(text, Seq::empty()).1.len() == 0,
        highlighted(text, Seq::empty()).2.len() == 0,
{
}

/// A mark behind the end of the text stands for the end: what is highlighted then reaches to the
/// end of the text.
pub proof fn law_mark_behind_the_end_highlights_to_the_end(
    text: Seq<char>,
    indices: Seq<u32>,
    first: int,
    behind: int,
)
    requires
        0 <= first < indices.len(),
        0 <= behind < indices.len(),
        forall|i: int| 0 <= i < indices.len() ==> indices[first] <= #[trigger] indices[i],
        indices[behind] >= text.len(),
    ensures
        highlighted(text, indices).2.len() == 0,
        indices[first] < text.len() ==> highlighted(text, indices).0 == text.subrange(
            0,
            indices[first] as int,
        ),
        indices[first] >= text.len() ==> highlighted(text, indices).1 == text,
{
    lemma_extremes(indices, first);
    lemma_extremes(indices, behind);
    lemma_extreme_is_index(indices);
}

} // verus!
