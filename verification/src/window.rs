//! The search for the window of a text that resembles a query best.
use vstd::arithmetic::power2::*;
use vstd::prelude::*;

use crate::bounds::{lemma_stretch_bound, lemma_stretched_fraction, lemma_stretched_side};
use crate::bridge::jaro_winkler_bits;
use crate::score::{jaro, jaro_similarity};
use crate::search::{occurs_at, StructuralSearchEngine};
use crate::single::{Single, ONE_BITS};
use crate::text::{chars_of, text_between};

verus! {

/// The encoding of 0.4, the similarity below which no window is worth a closer look.
pub const HOTSPOT_MIN_BITS: u32 = 0x3ECC_CCCD;

/// The encoding of 0.5.
pub const HALF_BITS: u32 = 0x3F00_0000;

/// The encoding of 0.7, the length of the shortest window relative to the query.
pub const SHORTEST_BITS: u32 = 0x3F33_3333;

/// The encoding of 1.4, the length of the longest window relative to the query.
pub const LONGEST_BITS: u32 = 0x3FB3_3333;

/// A length times a factor, in single precision, without the fraction.
pub open spec fn stretched(n: int, factor: u32) -> int {
    Single::of_count(n).product(Single { bits: factor }).whole()
}

/// The similarity of the query and the window of `n` characters that begins at `s`.
pub open spec fn window_similarity(q: Seq<char>, c: Seq<char>, s: int, n: int) -> Single {
    jaro_similarity(q, c.subrange(s, s + n))
}

/// The distance between windows of the first scan: it is coarser where much text is left.
pub open spec fn scan_step(c_len: int, from: int) -> int {
    if c_len - from > 150 {
        3
    } else {
        1
    }
}

/// `h` is the beginning of a window of the first scan. The windows are as long as the query.
pub open spec fn scanned(q_len: int, c_len: int, from: int, h: int) -> bool {
    &&& from <= h
    &&& h + q_len <= c_len
    &&& (h - from) % scan_step(c_len, from) == 0
}

/// Of the windows of the first scan the one that begins at `h` is the most similar one, and the
/// first of these.
pub open spec fn is_hotspot(q: Seq<char>, c: Seq<char>, from: int, h: int) -> bool {
    let n = q.len() as int;
    &&& scanned(n, c.len() as int, from, h)
    &&& forall|j: int|
        #[trigger]
        scanned(n, c.len() as int, from, j) ==> {
            let here = window_similarity(q, c, h, n).bits;
            let there = window_similarity(q, c, j, n).bits;
            there < here || (there == here && h <= j)
        }
}

/// The window of `n` characters that begins at `s` is one of those around the hotspot `h`. A
/// window has at least one character.
pub open spec fn refined(q_len: int, c_len: int, from: int, h: int, s: int, n: int) -> bool {
    &&& from <= s <= c_len
    &&& h - q_len / 2 <= s <= h + q_len / 2
    &&& 1 <= n
    &&& stretched(q_len, SHORTEST_BITS) <= n <= stretched(q_len, LONGEST_BITS)
    &&& s + n <= c_len
}

/// Of the windows around the hotspot `h` this one is the most similar one, and the first of
/// these: that with the earliest beginning, and then the shortest one.
pub open spec fn is_best_refined(
    q: Seq<char>,
    c: Seq<char>,
    from: int,
    h: int,
    s: int,
    n: int,
) -> bool {
    &&& refined(q.len() as int, c.len() as int, from, h, s, n)
    &&& forall|s2: int, n2: int|
        #[trigger]
        refined(q.len() as int, c.len() as int, from, h, s2, n2) ==> {
            let here = window_similarity(q, c, s, n).bits;
            let there = window_similarity(q, c, s2, n2).bits;
            there < here || (there == here && (s < s2 || (s == s2 && n <= n2)))
        }
}

/// The first and the last character of the window of `c`, from `from` on, that resembles the
/// query `q` best, where anything there resembles it enough.
pub open spec fn best_window(q: Seq<char>, c: Seq<char>, from: int) -> Option<(int, int)> {
    let n = q.len() as int;
    if from + stretched(n, HALF_BITS) > c.len() || !(exists|h: int| is_hotspot(q, c, from, h)) {
        None
    } else {
        let h = choose|h: int| is_hotspot(q, c, from, h);
        if window_similarity(q, c, h, n).bits < HOTSPOT_MIN_BITS || !(exists|s: int, k: int|
            is_best_refined(q, c, from, h, s, k)) {
            None
        } else {
            let (s, k) = choose|s: int, k: int| is_best_refined(q, c, from, h, s, k);
            if window_similarity(q, c, s, k).bits > 0 {
                Some((s, s + k - 1))
            } else {
                None
            }
        }
    }
}

/// The first scan comes across the query, letter for letter, at `h`.
pub open spec fn scanned_verbatim(q: Seq<char>, c: Seq<char>, from: int, h: int) -> bool {
    scanned(q.len() as int, c.len() as int, from, h) && occurs_at(q, c, h)
}

/// The length of queries up to which a window of another length or with other characters is told
/// from the query.
pub const TOLD_APART_MAX: usize = 0x8_0000;

/// The window that was found lies in the text, at or behind the place where the search began.
pub proof fn lemma_window_in_text(q: Seq<char>, c: Seq<char>, from: int)
    ensures
        best_window(q, c, from) matches Some((s, e)) ==> from <= s <= e < c.len(),
{
    if best_window(q, c, from) is Some {
        let h = choose|h: int| is_hotspot(q, c, from, h);
        let (s, k) = choose|s: int, k: int| is_best_refined(q, c, from, h, s, k);
        assert(is_best_refined(q, c, from, h, s, k));
    }
}

/// Computes a length times a factor that is at most two.
fn stretch(n: usize, factor: u32) -> (r: usize)
    requires
        factor <= 0x4000_0000,
    ensures
        r == stretched(n as int, factor),
{
    let count = Single::from_count(n);
    let by = Single { bits: factor };
    proof {
        lemma_stretch_bound(count, by);
    }
    count.times(by).truncate()
}

/// Finds the hotspot and its similarity.
fn find_hotspot(query: &str, chars: &[char], q_len: usize, from: usize) -> (r: Option<
    (usize, Single),
>)
    requires
        q_len == query@.len(),
        q_len >= 1,
        from <= chars@.len(),
    ensures
        r matches Some((h, score)) ==> is_hotspot(query@, chars@, from as int, h as int) && score
            == window_similarity(query@, chars@, h as int, q_len as int),
        r is None ==> forall|h: int| !is_hotspot(query@, chars@, from as int, h),
        r is None ==> forall|h: int| !scanned_verbatim(query@, chars@, from as int, h),
        r matches Some((h, score)) ==> score.bits <= ONE_BITS && forall|j: int|
            scanned_verbatim(query@, chars@, from as int, j) ==> score.bits == ONE_BITS,
{
    let c_len = chars.len();
    let step: usize = if c_len - from > 150 {
        3
    } else {
        1
    };
    let mut best: Option<(usize, Single)> = None;
    let mut start: usize = from;
    while start <= c_len && q_len <= c_len - start
        invariant
            c_len == chars@.len(),
            q_len == query@.len(),
            q_len >= 1,
            from <= start,
            step == scan_step(c_len as int, from as int),
            (start - from) % step as int == 0,
            best matches Some((h, score)) ==> h < start && scanned(
                q_len as int,
                c_len as int,
                from as int,
                h as int,
            ) && score == window_similarity(query@, chars@, h as int, q_len as int),
            best matches Some((h, score)) ==> forall|j: int| #[trigger]
                scanned(q_len as int, c_len as int, from as int, j) && j < start ==> {
                    let there = window_similarity(query@, chars@, j, q_len as int).bits;
                    there < score.bits || (there == score.bits && h <= j)
                },
            best is None ==> start == from,
            best matches Some((h, score)) ==> score.bits <= ONE_BITS && forall|j: int|
                scanned_verbatim(query@, chars@, from as int, j) && j < start ==> score.bits
                    == ONE_BITS,
        decreases c_len + 4 - start,
    {
        let window = text_between(chars, start, start + q_len);
        let score = jaro(query, &window);
        let better = match best {
            None => true,
            Some((_, top)) => score.bits > top.bits,
        };
        if better {
            best = Some((start, score));
        }
        proof {
            lemma_next_scanned(c_len as int, from as int, start as int);
        }
        if step > c_len - start {
            return best;
        }
        start = start + step;
    }
    best
}

/// Between two neighbouring windows of the first scan there is none.
proof fn lemma_next_scanned(c_len: int, from: int, start: int)
    requires
        (start - from) % scan_step(c_len, from) == 0,
    ensures
        (start + scan_step(c_len, from) - from) % scan_step(c_len, from) == 0,
        forall|j: int|
            start < j < start + scan_step(c_len, from) ==> (#[trigger] (j - from)) % scan_step(
                c_len,
                from,
            ) != 0,
{
    let d = start - from;
    if c_len - from > 150 {
        assert(d % 3 == 0);
        assert((d + 3) % 3 == 0);
        assert(start + 3 - from == d + 3);
        assert forall|j: int| start < j < start + 3 implies (#[trigger] (j - from)) % 3 != 0 by {
            assert(j - from == d + 1 || j - from == d + 2);
            assert((d + 1) % 3 == 1);
            assert((d + 2) % 3 == 2);
        }
    } else {
        assert((d + 1) % 1 == 0);
        assert(start + 1 - from == d + 1);
    }
}

/// Finds the best window around the hotspot `h`: its beginning, its length and its similarity.
fn refine(query: &str, chars: &[char], q_len: usize, from: usize, h: usize) -> (r: Option<
    (usize, usize, Single),
>)
    requires
        q_len == query@.len(),
        from <= h,
        h + q_len <= chars@.len(),
    ensures
        r matches Some((s, n, score)) ==> is_best_refined(
            query@,
            chars@,
            from as int,
            h as int,
            s as int,
            n as int,
        ) && score == window_similarity(query@, chars@, s as int, n as int),
        r is None ==> forall|s: int, n: int|
            !is_best_refined(query@, chars@, from as int, h as int, s, n),
        r is None ==> forall|s: int, n: int| #[trigger]
            refined(q_len as int, chars@.len() as int, from as int, h as int, s, n) ==> false,
        r matches Some((s, n, score)) ==> score.bits <= ONE_BITS && (score.bits == ONE_BITS
            && q_len <= TOLD_APART_MAX ==> chars@.subrange(s as int, s + n) == query@),
{
    let c_len = chars.len();
    let win_min = stretch(q_len, SHORTEST_BITS);
    let win_max = stretch(q_len, LONGEST_BITS);
    let least: usize = if win_min < 1 {
        1
    } else {
        win_min
    };
    let half: usize = q_len / 2;
    let low: usize = if h < half || h - half < from {
        from
    } else {
        h - half
    };
    let high: usize = h + half;
    let ghost ql = q_len as int;
    let ghost cl = c_len as int;
    let ghost fr = from as int;
    let ghost hs = h as int;
    proof {
        if q_len <= TOLD_APART_MAX {
            lemma_stretched_side(ql, Single { bits: LONGEST_BITS });
        }
    }
    let mut best: Option<(usize, usize, Single)> = None;
    let mut s: usize = low;
    while s <= high && s < c_len
        invariant
            c_len == chars@.len(),
            ql == q_len == query@.len(),
            cl == c_len,
            fr == from,
            hs == h,
            h + q_len <= c_len,
            half == q_len / 2,
            high == h + half,
            low <= s,
            low == if h - half < from {
                from as int
            } else {
                h - half
            },
            from <= h,
            win_min == stretched(ql, SHORTEST_BITS),
            win_max == stretched(ql, LONGEST_BITS),
            least == if win_min < 1 {
                1
            } else {
                win_min as int
            },
            q_len <= TOLD_APART_MAX ==> win_max <= 2 * q_len,
            best matches Some((bs, bn, score)) ==> score.bits <= ONE_BITS && (score.bits == ONE_BITS
                && q_len <= TOLD_APART_MAX ==> chars@.subrange(bs as int, bs + bn) == query@),
            best matches Some((bs, bn, score)) ==> refined(ql, cl, fr, hs, bs as int, bn as int)
                && bs < s && score == window_similarity(query@, chars@, bs as int, bn as int),
            best matches Some((bs, bn, score)) ==> forall|s2: int, n2: int| #[trigger]
                refined(ql, cl, fr, hs, s2, n2) && s2 < s ==> {
                    let there = window_similarity(query@, chars@, s2, n2).bits;
                    there < score.bits || (there == score.bits && (bs < s2 || (bs == s2 && bn
                        <= n2)))
                },
            best is None ==> forall|s2: int, n2: int| #[trigger]
                refined(ql, cl, fr, hs, s2, n2) ==> s2 >= s,
        decreases c_len - s,
    {
        let mut done: usize = least - 1;
        while done < win_max && done < c_len - s
            invariant
                c_len == chars@.len(),
                ql == q_len == query@.len(),
                cl == c_len,
                fr == from,
                hs == h,
                h + q_len <= c_len,
                from <= h,
                half == q_len / 2,
                high == h + half,
                low <= s <= high,
                s < c_len,
                least >= 1,
                low == if h - half < from {
                    from as int
                } else {
                    h - half
                },
                win_min == stretched(ql, SHORTEST_BITS),
                win_max == stretched(ql, LONGEST_BITS),
                least == if win_min < 1 {
                    1
                } else {
                    win_min as int
                },
                least <= done + 1,
                q_len <= TOLD_APART_MAX ==> win_max <= 2 * q_len,
                best matches Some((bs, bn, score)) ==> score.bits <= ONE_BITS && (score.bits
                    == ONE_BITS && q_len <= TOLD_APART_MAX ==> chars@.subrange(
                    bs as int,
                    bs + bn,
                ) == query@),
                best matches Some((bs, bn, score)) ==> refined(
                    ql,
                    cl,
                    fr,
                    hs,
                    bs as int,
                    bn as int,
                ) && (bs < s || (bs == s && bn <= done)) && score == window_similarity(
                    query@,
                    chars@,
                    bs as int,
                    bn as int,
                ),
                best matches Some((bs, bn, score)) ==> forall|s2: int, n2: int| #[trigger]
                    refined(ql, cl, fr, hs, s2, n2) && (s2 < s || (s2 == s && n2 <= done)) ==> {
                        let there = window_similarity(query@, chars@, s2, n2).bits;
                        there < score.bits || (there == score.bits && (bs < s2 || (bs == s2 && bn
                            <= n2)))
                    },
                best is None ==> forall|s2: int, n2: int| #[trigger]
                    refined(ql, cl, fr, hs, s2, n2) ==> s2 > s || (s2 == s && n2 > done),
            decreases c_len - s - done,
        {
            let n: usize = done + 1;
            let window = text_between(chars, s, s + n);
            let score = jaro(query, &window);
            let better = match best {
                None => true,
                Some((_, _, top)) => score.bits > top.bits,
            };
            if better {
                best = Some((s, n, score));
            }
            done = n;
        }
        s = s + 1;
    }
    best
}

/// There is at most one hotspot.
proof fn lemma_hotspot_unique(q: Seq<char>, c: Seq<char>, from: int, a: int, b: int)
    requires
        is_hotspot(q, c, from, a),
        is_hotspot(q, c, from, b),
    ensures
        a == b,
{
}

/// There is at most one best window around a hotspot.
proof fn lemma_refined_unique(
    q: Seq<char>,
    c: Seq<char>,
    from: int,
    h: int,
    s: int,
    n: int,
    s2: int,
    n2: int,
)
    requires
        is_best_refined(q, c, from, h, s, n),
        is_best_refined(q, c, from, h, s2, n2),
    ensures
        s == s2,
        n == n2,
{
}

impl StructuralSearchEngine {
    /// Identifies the window within a localized range that resembles the query best: the first
    /// and the last character of it, or nothing where nothing resembles the query enough. A fast
    /// scan finds the hotspot, a closer look around it the exact boundaries. Where the scan comes
    /// across the query itself, letter for letter, the window is an occurrence of the query, with
    /// its exact boundaries.
    pub fn find_best_fuzzy_window_in_range(
        query_norm: &str,
        c_chars: &[char],
        search_start: usize,
    ) -> (r: Option<(usize, usize)>)
        requires
            query_norm@.len() > 0,
        ensures
            r matches Some((s, e)) ==> best_window(query_norm@, c_chars@, search_start as int)
                == Some((s as int, e as int)) && search_start <= s <= e < c_chars@.len(),
            r is None ==> best_window(query_norm@, c_chars@, search_start as int) is None,
            query_norm@.len() <= TOLD_APART_MAX && (exists|h: int|
                scanned_verbatim(query_norm@, c_chars@, search_start as int, h)) ==> (
            r matches Some((s, e)) && occurs_at(query_norm@, c_chars@, s as int) && e == s
                + query_norm@.len() - 1),
            forall|h: int|
                query_norm@.len() <= 0x8_0000 && search_start <= h && h + query_norm@.len()
                    <= c_chars@.len() && (c_chars@.len() - search_start > 150 ==> (h - search_start)
                    % 3 == 0) && #[trigger] c_chars@.subrange(h, h + query_norm@.len())
                    == query_norm@ ==> (r matches Some((s, e)) && c_chars@.subrange(
                    s as int,
                    e + 1,
                ) == query_norm@),
    {
        let ghost q = query_norm@;
        let ghost c = c_chars@;
        let ghost from = search_start as int;
        let q_len = chars_of(query_norm).len();
        let c_len = c_chars.len();
        let half = stretch(q_len, HALF_BITS);
        proof {
            if q_len <= TOLD_APART_MAX {
                lemma_stretched_side(q_len as int, Single { bits: HALF_BITS });
                lemma_stretched_side(q_len as int, Single { bits: SHORTEST_BITS });
                lemma_stretched_side(q_len as int, Single { bits: LONGEST_BITS });
            }
        }
        let ghost verbatim = exists|h: int| scanned_verbatim(q, c, from, h);
        let ghost short = q_len <= TOLD_APART_MAX;
        assert forall|h: int|
            q_len <= 0x8_0000 && from <= h && h + q_len <= c_len && (c_len - from > 150 ==> (h
                - from) % 3 == 0) && #[trigger] c.subrange(h, h + q_len) == q implies verbatim
            && short by {
            assert(scanned_verbatim(q, c, from, h));
        }
        if search_start > c_len || half > c_len - search_start {
            return None;
        }
        match find_hotspot(query_norm, c_chars, q_len, search_start) {
            None => None,
            Some((h, top)) => {
                proof {
                    lemma_hotspot_unique(
                        q,
                        c,
                        from,
                        h as int,
                        choose|h: int| is_hotspot(q, c, from, h),
                    );
                }
                if top.bits < HOTSPOT_MIN_BITS {
                    return None;
                }
                assert(verbatim && short ==> refined(
                    q_len as int,
                    c_len as int,
                    from,
                    h as int,
                    h as int,
                    q_len as int,
                ));
                match refine(query_norm, c_chars, q_len, search_start, h) {
                    None => None,
                    Some((s, n, score)) => {
                        proof {
                            let (s2, n2) = choose|s: int, k: int|
                                is_best_refined(q, c, from, h as int, s, k);
                            lemma_refined_unique(
                                q,
                                c,
                                from,
                                h as int,
                                s as int,
                                n as int,
                                s2,
                                n2,
                            );
                        }
                        if score.bits > 0 {
                            Some((s, s + n - 1))
                        } else {
                            None
                        }
                    },
                }
            },
        }
    }
}

/// Of the places in a range that meet a condition, the first one with the highest value.
proof fn lemma_first_best(meets: spec_fn(int) -> bool, value: spec_fn(int) -> int, lo: int, hi: int)
    -> (best: int)
    requires
        exists|x: int| lo <= x < hi && #[trigger] meets(x),
    ensures
        lo <= best < hi,
        meets(best),
        forall|x: int|
            lo <= x < hi && #[trigger] meets(x) ==> value(x) < value(best) || (value(x) == value(
                best,
            ) && best <= x),
    decreases hi - lo,
{
    let last = hi - 1;
    if exists|x: int| lo <= x < last && #[trigger] meets(x) {
        let best = lemma_first_best(meets, value, lo, last);
        if meets(last) && value(last) > value(best) {
            last
        } else {
            best
        }
    } else {
        last
    }
}

/// Where the first scan has a window, it has a hotspot.
proof fn lemma_hotspot_exists(q: Seq<char>, c: Seq<char>, from: int, at: int)
    requires
        scanned(q.len() as int, c.len() as int, from, at),
    ensures
        exists|h: int| is_hotspot(q, c, from, h),
{
    let n = q.len() as int;
    let meets = |h: int| scanned(n, c.len() as int, from, h);
    let value = |h: int| window_similarity(q, c, h, n).bits as int;
    assert(meets(at));
    let h = lemma_first_best(meets, value, from, c.len() as int + 1);
    assert forall|j: int| #[trigger] scanned(n, c.len() as int, from, j) implies {
        let here = window_similarity(q, c, h, n).bits;
        let there = window_similarity(q, c, j, n).bits;
        there < here || (there == here && h <= j)
    } by {
        assert(meets(j));
    }
    assert(is_hotspot(q, c, from, h));
}

/// Of the windows around the hotspot `h` that begin at `s`, the one of `n` characters is the most
/// similar one, and the shortest of these.
spec fn best_length(q: Seq<char>, c: Seq<char>, from: int, h: int, s: int, n: int) -> bool {
    &&& refined(q.len() as int, c.len() as int, from, h, s, n)
    &&& forall|n2: int| #[trigger]
        refined(q.len() as int, c.len() as int, from, h, s, n2) ==> {
            let here = window_similarity(q, c, s, n).bits;
            let there = window_similarity(q, c, s, n2).bits;
            there < here || (there == here && n <= n2)
        }
}

/// Where there is a window around a hotspot, there is a best one.
proof fn lemma_refined_exists(q: Seq<char>, c: Seq<char>, from: int, h: int, at: int, len: int)
    requires
        from >= 0,
        refined(q.len() as int, c.len() as int, from, h, at, len),
    ensures
        exists|s: int, n: int| is_best_refined(q, c, from, h, s, n),
{
    let ql = q.len() as int;
    let cl = c.len() as int;
    let value = |s: int, n: int| window_similarity(q, c, s, n).bits as int;
    let length = |s: int| choose|n: int| best_length(q, c, from, h, s, n);
    let meets = |s: int| exists|n: int| refined(ql, cl, from, h, s, n);
    let top = |s: int| value(s, length(s));
    assert forall|s: int| #[trigger] meets(s) implies best_length(q, c, from, h, s, length(s)) by {
        let fits = |n: int| refined(ql, cl, from, h, s, n);
        let similar = |n: int| value(s, n);
        let n0 = choose|n: int| refined(ql, cl, from, h, s, n);
        assert(fits(n0));
        let n = lemma_first_best(fits, similar, 0, cl + 1);
        assert forall|n2: int| #[trigger] refined(ql, cl, from, h, s, n2) implies {
            let here = window_similarity(q, c, s, n).bits;
            let there = window_similarity(q, c, s, n2).bits;
            there < here || (there == here && n <= n2)
        } by {
            assert(fits(n2));
            assert(similar(n2) == value(s, n2));
            assert(similar(n) == value(s, n));
        }
        assert(best_length(q, c, from, h, s, n));
    }
    assert(meets(at));
    let s = lemma_first_best(meets, top, from, cl + 1);
    let n = length(s);
    assert(best_length(q, c, from, h, s, n));
    assert forall|s2: int, n2: int| #[trigger] refined(ql, cl, from, h, s2, n2) implies {
        let here = window_similarity(q, c, s, n).bits;
        let there = window_similarity(q, c, s2, n2).bits;
        there < here || (there == here && (s < s2 || (s == s2 && n <= n2)))
    } by {
        assert(meets(s2));
        assert(best_length(q, c, from, h, s2, length(s2)));
        assert(top(s2) == value(s2, length(s2)));
        assert(top(s) == value(s, n));
        assert(value(s2, n2) <= value(s2, length(s2)));
    }
    assert(is_best_refined(q, c, from, h, s, n));
}

/// The lengths of the windows that are looked at, compared with seven and fourteen tenths of the
/// length of the query.
proof fn lemma_window_lengths(n: int, m: int)
    requires
        0 <= n <= 0x8_0000,
        0 <= m <= 0x100_0000,
    ensures
        10 * m >= 7 * n ==> stretched(n, SHORTEST_BITS) <= m,
        10 * m < 7 * n ==> stretched(n, SHORTEST_BITS) >= m,
        10 * m >= 14 * n ==> stretched(n, LONGEST_BITS) <= m,
        10 * m < 14 * n ==> stretched(n, LONGEST_BITS) >= m,
{
    let short = Single { bits: SHORTEST_BITS };
    let long = Single { bits: LONGEST_BITS };
    let u = pow2(125) as int;
    lemma2_to64();
    lemma_pow2_pos(125);
    lemma_pow2_adds(24, 125);
    lemma_pow2_unfold(126);
    assert(short.significand() == 0xB3_3333 && short.exponent() == 125);
    assert(long.significand() == 0xB3_3333 && long.exponent() == 126);
    assert(short.scaled() == 0xB3_3333 * u);
    assert(long.scaled() == 0xB3_3333 * (2 * u));
    assert(pow2(149) == 0x100_0000 * u);
    lemma_stretched_fraction(n, short, 7, 10, m);
    lemma_stretched_fraction(n, long, 14, 10, m);
}

/// What is known of the window that was found: its hotspot, and that nothing is better.
proof fn lemma_best_window(q: Seq<char>, c: Seq<char>, from: int) -> (h: int)
    requires
        best_window(q, c, from) is Some,
    ensures
        ({
            let (s, e) = best_window(q, c, from)->0;
            &&& is_hotspot(q, c, from, h)
            &&& window_similarity(q, c, h, q.len() as int).bits >= HOTSPOT_MIN_BITS
            &&& is_best_refined(q, c, from, h, s, e + 1 - s)
        }),
{
    let h = choose|h: int| is_hotspot(q, c, from, h);
    let (s, k) = choose|s: int, k: int| is_best_refined(q, c, from, h, s, k);
    assert(is_best_refined(q, c, from, h, s, k));
    h
}

/// The scan reaches every place up to the end of the text: wherever the window is that begins there
/// and is as long as the query, with every third place where more than 150 characters are left and
/// every place where not, what is found is at least as similar to the query as that window, and
/// nothing is found only where that window has a similarity below 0.4.
pub proof fn law_scan_reaches_the_end_of_the_text(q: Seq<char>, c: Seq<char>, from: int, h: int)
    requires
        1 <= q.len() <= 0x8_0000,
        0 <= from <= h,
        h + q.len() <= c.len(),
        c.len() - from > 150 ==> (h - from) % 3 == 0,
    ensures
        ({
            let there = Single::of_double(
                jaro_winkler_bits(q, c.subrange(h, h + q.len())),
            ).bits;
            match best_window(q, c, from) {
                Some((s, e)) => {
                    &&& from <= s <= e < c.len()
                    &&& Single::of_double(jaro_winkler_bits(q, c.subrange(s, e + 1))).bits >= there
                },
                None => there < 0x3ECC_CCCD,
            }
        }),
{
    let n = q.len() as int;
    assert(scanned(n, c.len() as int, from, h));
    lemma_hotspot_exists(q, c, from, h);
    lemma_window_in_text(q, c, from);
    lemma_window_lengths(n, n);
    lemma_stretched_side(n, Single { bits: HALF_BITS });
    lemma_stretched_side(n, Single { bits: SHORTEST_BITS });
    lemma_stretched_side(n, Single { bits: LONGEST_BITS });
    let there = window_similarity(q, c, h, n);
    if best_window(q, c, from) is Some {
        let top = lemma_best_window(q, c, from);
        let (s, e) = best_window(q, c, from)->0;
        assert(refined(n, c.len() as int, from, top, top, n));
        assert(window_similarity(q, c, s, e + 1 - s).bits >= window_similarity(q, c, top, n).bits);
        assert(s + (e + 1 - s) == e + 1);
    } else {
        let top = choose|top: int| is_hotspot(q, c, from, top);
        assert(is_hotspot(q, c, from, top));
        assert(there.bits <= window_similarity(q, c, top, n).bits);
        if window_similarity(q, c, top, n).bits >= HOTSPOT_MIN_BITS {
            assert(refined(n, c.len() as int, from, top, top, n));
            lemma_refined_exists(q, c, from, top, top, n);
            let (s, k) = choose|s: int, k: int| is_best_refined(q, c, from, top, s, k);
            assert(is_best_refined(q, c, from, top, s, k));
            assert(window_similarity(q, c, s, k).bits >= window_similarity(q, c, top, n).bits);
        }
    }
}

/// What is found is the best window around the most similar place of the scan: that place has a
/// similarity of 0.4 at least, all others are less similar or come later; the window begins at most
/// half the length of the query away from it, and all windows there that have between seven and
/// fourteen tenths of the length of the query are less similar, or begin later, or begin with it
/// and are not shorter.
pub proof fn law_window_is_the_best_around_the_best_place(q: Seq<char>, c: Seq<char>, from: int)
    requires
        1 <= q.len() <= 0x8_0000,
        from >= 0,
        best_window(q, c, from) is Some,
    ensures
        exists|h: int|
            ({
                let n = q.len() as int;
                let (s, e) = best_window(q, c, from)->0;
                let k = e + 1 - s;
                let top = Single::of_double(
                    jaro_winkler_bits(q, #[trigger] c.subrange(h, h + q.len())),
                ).bits;
                let found = Single::of_double(jaro_winkler_bits(q, c.subrange(s, s + k))).bits;
                &&& from <= h
                &&& h + n <= c.len()
                &&& c.len() - from > 150 ==> (h - from) % 3 == 0
                &&& top >= 0x3ECC_CCCD
                &&& forall|j: int|
                    from <= j && j + n <= c.len() && (c.len() - from > 150 ==> (j - from) % 3 == 0)
                        ==> {
                        let there = Single::of_double(
                            jaro_winkler_bits(q, #[trigger] c.subrange(j, j + q.len())),
                        ).bits;
                        there < top || (there == top && h <= j)
                    }
                &&& from <= s
                &&& h - n / 2 <= s <= h + n / 2
                &&& 1 <= k
                &&& s + k <= c.len()
                &&& 7 * n <= 10 * (k + 1)
                &&& 10 * k < 14 * n + 10
                &&& forall|s2: int, e2: int|
                    from <= s2 && h - n / 2 <= s2 <= h + n / 2 && s2 < e2 <= c.len() && 7 * n <= 10
                        * (e2 - s2) < 14 * n ==> {
                        let there = Single::of_double(
                            jaro_winkler_bits(q, #[trigger] c.subrange(s2, e2)),
                        ).bits;
                        there < found || (there == found && (s < s2 || (s == s2 && k <= e2 - s2)))
                    }
            }),
{
    let n = q.len() as int;
    let cl = c.len() as int;
    let h = lemma_best_window(q, c, from);
    let (s, e) = best_window(q, c, from)->0;
    let k = e + 1 - s;
    let top = window_similarity(q, c, h, n).bits;
    let found = window_similarity(q, c, s, k).bits;
    lemma_stretched_side(n, Single { bits: LONGEST_BITS });
    assert(k <= 2 * n);
    lemma_window_lengths(n, k + 1);
    lemma_window_lengths(n, if k > 1 {
        k - 1
    } else {
        0
    });
    lemma_window_lengths(n, k);
    assert forall|j: int|
        from <= j && j + n <= c.len() && (c.len() - from > 150 ==> (j - from) % 3 == 0) implies {
        let there = Single::of_double(
            jaro_winkler_bits(q, #[trigger] c.subrange(j, j + n)),
        ).bits;
        there < top || (there == top && h <= j)
    } by {
        assert(scanned(n, cl, from, j));
        assert(window_similarity(q, c, j, n).bits == Single::of_double(
            jaro_winkler_bits(q, c.subrange(j, j + n)),
        ).bits);
    }
    assert forall|s2: int, e2: int|
        from <= s2 && h - n / 2 <= s2 <= h + n / 2 && s2 < e2 <= c.len() && 7 * n <= 10 * (e2 - s2)
            < 14 * n implies {
        let there = Single::of_double(
            jaro_winkler_bits(q, #[trigger] c.subrange(s2, e2)),
        ).bits;
        there < found || (there == found && (s < s2 || (s == s2 && k <= e2 - s2)))
    } by {
        let n2 = e2 - s2;
        lemma_window_lengths(n, n2);
        assert(refined(n, cl, from, h, s2, n2));
        assert(s2 + n2 == e2);
        assert(window_similarity(q, c, s2, n2).bits == Single::of_double(
            jaro_winkler_bits(q, c.subrange(s2, e2)),
        ).bits);
    }
    assert(Single::of_double(jaro_winkler_bits(q, c.subrange(h, h + n))).bits == top);
}

} // verus!
