//! The fuzzy similarity score.
use vstd::arithmetic::power2::*;
use vstd::prelude::*;

use crate::arithmetic::lemma_count;
use crate::bounds::{
    lemma_added, lemma_count_up, lemma_nearest_below_middle, lemma_over_itself,
    lemma_product_monotone, lemma_quotient_at_most_one, lemma_rounding_error, lemma_running_sum,
    lemma_same_value, lemma_small_count, lemma_sum_at_most, lemma_sum_monotone, lemma_times_one,
    lemma_weighted,
};
use crate::bridge::{
    jaro_winkler, jaro_winkler_bits, normalized_levenshtein, normalized_levenshtein_bits,
    sorensen_dice, sorensen_dice_bits, COMPARED_MAX,
};
use crate::rounding::{
    lemma_exact, lemma_grid, lemma_monotone, lemma_nearest_at_most, lemma_nearest_exists,
    lemma_one, lemma_round, lemma_scaled_bound,
};
use crate::search::StructuralSearchEngine;
use crate::single::{Single, ONE_BITS};
use crate::text::{chars_of, text_of};
use crate::words::{
    comes_before, common, distinct, join, join_words, lemma_comes_before, lemma_listing,
    lemma_sorting, lex_le, listing, sort, sorting, split, split_words, words_of,
};

verus! {

/// The count up to which counts are exact in single precision, `2^24`.
pub const COUNTED_MAX: usize = 0x100_0000;

/// The encoding of 0.3.
pub const THREE_TENTHS_BITS: u32 = 0x3E99_999A;

/// The encoding of 0.4.
pub const FOUR_TENTHS_BITS: u32 = 0x3ECC_CCCD;

/// The encoding of 0.7.
pub const SEVEN_TENTHS_BITS: u32 = 0x3F33_3333;

/// The encoding of 95, the highest fuzzy score.
pub const NINETY_FIVE_BITS: u32 = 0x42BE_0000;

/// The Jaro-Winkler similarity of two texts in single precision.
pub open spec fn jaro_similarity(a: Seq<char>, b: Seq<char>) -> Single {
    Single::of_double(jaro_winkler_bits(a, b))
}

/// The normalized Levenshtein similarity of two texts in single precision.
pub open spec fn edit_similarity(a: Seq<char>, b: Seq<char>) -> Single {
    Single::of_double(normalized_levenshtein_bits(a, b))
}

/// The Sorensen-Dice similarity of two texts in single precision.
pub open spec fn dice_similarity(a: Seq<char>, b: Seq<char>) -> Single {
    Single::of_double(sorensen_dice_bits(a, b))
}

/// Computes the Jaro-Winkler similarity.
pub fn jaro(a: &str, b: &str) -> (r: Single)
    ensures
        r == jaro_similarity(a@, b@),
        r.bits <= ONE_BITS,
        a@ == b@ ==> r.bits == ONE_BITS,
        a@ != b@ && a@.len() <= COMPARED_MAX && b@.len() <= COMPARED_MAX ==> r.bits < ONE_BITS,
{
    Single::from_double(jaro_winkler(a, b))
}

fn edit(a: &str, b: &str) -> (r: Single)
    ensures
        r == edit_similarity(a@, b@),
        r.bits <= ONE_BITS,
        a@ == b@ ==> r.bits == ONE_BITS,
{
    Single::from_double(normalized_levenshtein(a, b))
}

fn dice(a: &str, b: &str) -> (r: Single)
    ensures
        r == dice_similarity(a@, b@),
        r.bits <= ONE_BITS,
        a@ == b@ ==> r.bits == ONE_BITS,
{
    Single::from_double(sorensen_dice(a, b))
}

/// Token sort ratio: the similarity of the words in sorted order.
pub open spec fn token_sort(q: Seq<Seq<char>>, c: Seq<Seq<char>>) -> Single {
    edit_similarity(join_words(sorting(q)), join_words(sorting(c)))
}

/// Token set ratio: the best similarity among the shared words, the words of the query and the
/// words of the candidate.
pub open spec fn token_set(q: Seq<Seq<char>>, c: Seq<Seq<char>>) -> Single {
    let shared = q.to_set().intersect(c.to_set());
    let t0 = join_words(listing(shared));
    let t1 = join_words(listing(shared.union(q.to_set().difference(c.to_set()))));
    let t2 = join_words(listing(shared.union(c.to_set().difference(q.to_set()))));
    edit_similarity(t0, t1).larger(edit_similarity(t0, t2)).larger(edit_similarity(t1, t2))
}

/// The best similarity of the word `w` with one of the first `n` words of `c`.
pub open spec fn best_word(w: Seq<char>, c: Seq<Seq<char>>, n: nat) -> Single
    decreases n,
{
    if n == 0 {
        Single { bits: 0 }
    } else {
        best_word(w, c, (n - 1) as nat).larger(jaro_similarity(w, c[n - 1]))
    }
}

/// The sum of the best similarities of the first `n` words of `q`.
pub open spec fn best_words(q: Seq<Seq<char>>, c: Seq<Seq<char>>, n: nat) -> Single
    decreases n,
{
    if n == 0 {
        Single { bits: 0 }
    } else {
        best_words(q, c, (n - 1) as nat).sum(best_word(q[n - 1], c, c.len()))
    }
}

/// Word-level alignment: the mean of the best similarities of the words of the query.
pub open spec fn alignment(q: Seq<Seq<char>>, c: Seq<Seq<char>>) -> Single {
    best_words(q, c, q.len()).quotient(Single::of_count(q.len() as int))
}

/// Four tenths of `a` and three tenths of `b` and of `c`.
pub open spec fn blend(a: Single, b: Single, c: Single) -> Single {
    let four = Single { bits: FOUR_TENTHS_BITS };
    let three = Single { bits: THREE_TENTHS_BITS };
    a.product(four).sum(b.product(three)).sum(c.product(three))
}

/// Seven tenths of `a` and three tenths of `b`, on a scale from 0 to 95.
pub open spec fn scale(a: Single, b: Single) -> Single {
    let seven = Single { bits: SEVEN_TENTHS_BITS };
    let three = Single { bits: THREE_TENTHS_BITS };
    a.product(seven).sum(b.product(three)).product(Single { bits: NINETY_FIVE_BITS })
}

/// The fuzzy score of a query and a candidate, both normalized. Without words on either side it
/// is zero.
pub open spec fn fuzzy_score(query: Seq<char>, cand: Seq<char>) -> Single {
    let q = split_words(query);
    let c = split_words(cand);
    if q.len() == 0 || c.len() == 0 {
        Single { bits: 0 }
    } else {
        scale(
            blend(token_sort(q, c), token_set(q, c), alignment(q, c)),
            blend(
                jaro_similarity(query, cand),
                edit_similarity(query, cand),
                dice_similarity(query, cand),
            ),
        )
    }
}

/// How the weights add up: 0.4 and 0.3 stay below the next single above 0.7, with another 0.3
/// they reach the middle between one and the next single, and 0.7 and 0.3 make one.
proof fn lemma_tenths()
    ensures
        ({
            let four = Single { bits: FOUR_TENTHS_BITS };
            let three = Single { bits: THREE_TENTHS_BITS };
            let seven = Single { bits: SEVEN_TENTHS_BITS };
            let mid = Single { bits: 0x3F33_3334 };
            let one = Single { bits: ONE_BITS };
            let next = Single { bits: (ONE_BITS + 1) as u32 };
            &&& four.scaled() + three.scaled() <= mid.scaled()
            &&& 2 * (mid.scaled() + three.scaled()) == one.scaled() + next.scaled()
            &&& seven.scaled() + three.scaled() == one.scaled()
        }),
{
    let four = Single { bits: FOUR_TENTHS_BITS };
    let three = Single { bits: THREE_TENTHS_BITS };
    let seven = Single { bits: SEVEN_TENTHS_BITS };
    let mid = Single { bits: 0x3F33_3334 };
    let one = Single { bits: ONE_BITS };
    let next = Single { bits: (ONE_BITS + 1) as u32 };
    lemma_pow2_unfold(125);
    lemma_pow2_unfold(126);
    let u = pow2(124) as int;
    assert(four.scaled() == 0xCC_CCCD * u);
    assert(three.scaled() == 0x99_999A * u);
    assert(seven.scaled() == 0xB3_3333 * (2 * u));
    assert(mid.scaled() == 0xB3_3334 * (2 * u));
    assert(one.scaled() == 0x80_0000 * (4 * u));
    assert(next.scaled() == 0x80_0001 * (4 * u));
}

/// Blending numbers that are at most one gives a number that is at most one.
pub proof fn lemma_blend(a: Single, b: Single, c: Single)
    requires
        a.bits <= ONE_BITS,
        b.bits <= ONE_BITS,
        c.bits <= ONE_BITS,
    ensures
        blend(a, b, c).bits <= ONE_BITS,
        a.product(Single { bits: FOUR_TENTHS_BITS }).bits <= FOUR_TENTHS_BITS,
        b.product(Single { bits: THREE_TENTHS_BITS }).bits <= THREE_TENTHS_BITS,
        c.product(Single { bits: THREE_TENTHS_BITS }).bits <= THREE_TENTHS_BITS,
        a.product(Single { bits: FOUR_TENTHS_BITS }).sum(
            b.product(Single { bits: THREE_TENTHS_BITS }),
        ).bits <= 0x3F33_3334,
{
    let four = Single { bits: FOUR_TENTHS_BITS };
    let three = Single { bits: THREE_TENTHS_BITS };
    let mid = Single { bits: 0x3F33_3334 };
    let one = Single { bits: ONE_BITS };
    lemma_product_monotone(a, four, a, four);
    lemma_product_monotone(b, three, b, three);
    lemma_product_monotone(c, three, c, three);
    lemma_tenths();
    lemma_sum_at_most(four, three, mid);
    lemma_nearest_at_most(four.sum(three), four.scaled() + three.scaled(), 1, mid);
    lemma_sum_monotone(a.product(four), b.product(three), four, three);
    lemma_sum_at_most(mid, three, one);
    lemma_nearest_below_middle(mid.sum(three), mid.scaled() + three.scaled(), 1, one);
    lemma_sum_monotone(
        a.product(four).sum(b.product(three)),
        c.product(three),
        mid,
        three,
    );
}

/// Scaling numbers that are at most one gives a score that is at most 95.
pub proof fn lemma_scale(a: Single, b: Single)
    requires
        a.bits <= ONE_BITS,
        b.bits <= ONE_BITS,
    ensures
        scale(a, b).bits <= NINETY_FIVE_BITS,
        a.product(Single { bits: SEVEN_TENTHS_BITS }).bits <= SEVEN_TENTHS_BITS,
        b.product(Single { bits: THREE_TENTHS_BITS }).bits <= THREE_TENTHS_BITS,
        a.product(Single { bits: SEVEN_TENTHS_BITS }).sum(
            b.product(Single { bits: THREE_TENTHS_BITS }),
        ).bits <= ONE_BITS,
{
    let seven = Single { bits: SEVEN_TENTHS_BITS };
    let three = Single { bits: THREE_TENTHS_BITS };
    let one = Single { bits: ONE_BITS };
    let top = Single { bits: NINETY_FIVE_BITS };
    lemma_product_monotone(a, seven, a, seven);
    lemma_product_monotone(b, three, b, three);
    lemma_tenths();
    lemma_sum_at_most(seven, three, one);
    lemma_nearest_at_most(seven.sum(three), seven.scaled() + three.scaled(), 1, one);
    lemma_sum_monotone(a.product(seven), b.product(three), seven, three);
    let raw = a.product(seven).sum(b.product(three));
    lemma_product_monotone(raw, top, raw, top);
}

/// Four tenths and three tenths, rounded, make the first single above seven tenths.
#[verifier::spinoff_prover]
proof fn lemma_four_and_three()
    ensures
        (Single { bits: FOUR_TENTHS_BITS }).sum(Single { bits: THREE_TENTHS_BITS }) == (Single {
            bits: 0x3F33_3334,
        }),
{
    let four = Single { bits: FOUR_TENTHS_BITS };
    let three = Single { bits: THREE_TENTHS_BITS };
    let u = pow2(124) as int;
    lemma_pow2_unfold(125);
    lemma_pow2_pos(124);
    assert(pow2(125) == 2 * u);
    assert(four.significand() == 0xCC_CCCD && four.exponent() == 124);
    assert(three.significand() == 0x99_999A && three.exponent() == 124);
    assert(four.scaled() == 0xCC_CCCD * u);
    assert(three.scaled() == 0x99_999A * u);
    let n = four.scaled() + three.scaled();
    assert(n == 0x166_6667 * u);
    assert(n * 2 == (pow2(125) * 1) * 0x166_6667);
    lemma_round(n, 1, 125, 0x166_6667, 2);
}

/// That single and another three tenths, rounded, make one.
#[verifier::spinoff_prover]
proof fn lemma_seven_and_three()
    ensures
        (Single { bits: 0x3F33_3334 }).sum(Single { bits: THREE_TENTHS_BITS }) == (Single {
            bits: ONE_BITS,
        }),
{
    let mid = Single { bits: 0x3F33_3334 };
    let three = Single { bits: THREE_TENTHS_BITS };
    let u = pow2(124) as int;
    lemma_pow2_unfold(125);
    lemma_pow2_unfold(126);
    lemma_pow2_pos(124);
    assert(pow2(125) == 2 * u && pow2(126) == 4 * u);
    assert(mid.significand() == 0xB3_3334 && mid.exponent() == 125);
    assert(three.significand() == 0x99_999A && three.exponent() == 124);
    assert(mid.scaled() == 0xB3_3334 * pow2(125));
    assert(three.scaled() == 0x99_999A * u);
    let n = mid.scaled() + three.scaled();
    assert(n == 0x200_0002 * u);
    assert(n * 4 == (pow2(126) * 1) * 0x200_0002);
    lemma_round(n, 1, 126, 0x200_0002, 4);
}

/// Where all similarities are one, the score is 95.
proof fn lemma_highest()
    ensures
        ({
            let one = Single { bits: ONE_BITS };
            &&& blend(one, one, one) == one
            &&& scale(one, one) == (Single { bits: NINETY_FIVE_BITS })
        }),
{
    let four = Single { bits: FOUR_TENTHS_BITS };
    let three = Single { bits: THREE_TENTHS_BITS };
    let seven = Single { bits: SEVEN_TENTHS_BITS };
    let one = Single { bits: ONE_BITS };
    lemma_times_one(four);
    lemma_times_one(three);
    lemma_times_one(seven);
    lemma_times_one(Single { bits: NINETY_FIVE_BITS });
    lemma_four_and_three();
    lemma_seven_and_three();
    lemma_tenths();
    lemma_exact(one, 1);
    assert(one.scaled() * 1 == one.scaled());
    assert(seven.sum(three) == one);
}

/// A blend, compared with four tenths of the first and three tenths of each of the others.
proof fn lemma_blend_value(a: Single, b: Single, c: Single)
    requires
        a.bits <= ONE_BITS,
        b.bits <= ONE_BITS,
        c.bits <= ONE_BITS,
    ensures
        -(76 * pow2(125)) <= 10 * blend(a, b, c).scaled() - (4 * a.scaled() + 3 * b.scaled() + 3
            * c.scaled()) <= 76 * pow2(125),
{
    let four = Single { bits: FOUR_TENTHS_BITS };
    let three = Single { bits: THREE_TENTHS_BITS };
    let u = pow2(124) as int;
    lemma_blend(a, b, c);
    lemma_tenths_values();
    lemma_pow2_unfold(125);
    lemma_pow2_unfold(126);
    lemma_weighted(a, four, 4, 10, 2 * u);
    lemma_weighted(b, three, 3, 10, 4 * u);
    lemma_weighted(c, three, 3, 10, 4 * u);
    lemma_added(a.product(four), b.product(three));
    lemma_added(a.product(four).sum(b.product(three)), c.product(three));
}

/// The weights, compared with the tenths that they stand for.
proof fn lemma_tenths_values()
    ensures
        ({
            let u = pow2(124) as int;
            &&& pow2(149) == 0x200_0000 * u
            &&& 10 * (Single { bits: FOUR_TENTHS_BITS }).scaled() - 4 * pow2(149) == 2 * u
            &&& 10 * (Single { bits: THREE_TENTHS_BITS }).scaled() - 3 * pow2(149) == 4 * u
            &&& 10 * (Single { bits: SEVEN_TENTHS_BITS }).scaled() - 7 * pow2(149) == -4 * u
            &&& (Single { bits: NINETY_FIVE_BITS }).scaled() == 95 * pow2(149)
        }),
{
    let four = Single { bits: FOUR_TENTHS_BITS };
    let three = Single { bits: THREE_TENTHS_BITS };
    let seven = Single { bits: SEVEN_TENTHS_BITS };
    let top = Single { bits: NINETY_FIVE_BITS };
    let u = pow2(124) as int;
    lemma2_to64();
    lemma_pow2_adds(25, 124);
    lemma_pow2_adds(8, 124);
    lemma_pow2_unfold(125);
    assert(four.scaled() == 0xCC_CCCD * u);
    assert(three.scaled() == 0x99_999A * u);
    assert(seven.scaled() == 0xB3_3333 * (2 * u));
    assert(top.significand() == 0xBE_0000 && top.exponent() == 132);
    assert(top.scaled() == 0xBE_0000 * pow2(132));
}

/// A scaled score, compared with 95 times seven tenths of `a` and three tenths of `b`.
proof fn lemma_scale_value(a: Single, b: Single)
    requires
        a.bits <= ONE_BITS,
        b.bits <= ONE_BITS,
    ensures
        -(5500 * pow2(125)) <= 10 * scale(a, b).scaled() - 95 * (7 * a.scaled() + 3 * b.scaled())
            <= 5500 * pow2(125),
{
    let seven = Single { bits: SEVEN_TENTHS_BITS };
    let three = Single { bits: THREE_TENTHS_BITS };
    let top = Single { bits: NINETY_FIVE_BITS };
    let u = pow2(124) as int;
    let one = Single { bits: ONE_BITS };
    lemma_scale(a, b);
    lemma_tenths_values();
    lemma_pow2_unfold(125);
    lemma_pow2_unfold(126);
    lemma_weighted(a, seven, 7, 10, 4 * u);
    lemma_weighted(b, three, 3, 10, 4 * u);
    lemma_added(a.product(seven), b.product(three));
    let raw = a.product(seven).sum(b.product(three));
    let t = raw.scaled();
    let d = pow2(149) as int;
    lemma_one();
    lemma_pow2_pos(149);
    lemma_scaled_bound(raw);
    if raw.bits < ONE_BITS {
        lemma_monotone(raw, one);
    }
    lemma_product_monotone(raw, top, raw, top);
    lemma2_to64();
    lemma_pow2_adds(7, 149);
    lemma_pow2_adds(7, 125);
    assert(t * (95 * d) == (95 * t) * d) by (nonlinear_arith);
    assert(0 <= t * (95 * d) <= d * (0x80 * d)) by (nonlinear_arith)
        requires
            0 <= t <= d,
            d > 0,
    ;
    lemma_rounding_error(raw.product(top), t * top.scaled(), d, 7);
    let f = raw.product(top).scaled();
    let e = pow2(132) as int;
    assert(-e <= f - 95 * t <= e) by (nonlinear_arith)
        requires
            -(d * e) <= f * d - (95 * t) * d <= d * e,
            d > 0,
    ;
}

/// Where both texts have words, however many, the score is what the six similarities say: 95 times
/// 28, 21 and 21 hundredths of the similarities of the sorted words, of the sets of words and of
/// word with word, and 12, 9 and 9 hundredths of the Jaro-Winkler, the Levenshtein and the
/// Sorensen-Dice similarity of the texts, up to an error below a ten-thousandth. So it is at least
/// as high as each of the six makes it, and only texts that are alike in nothing score nothing.
pub proof fn law_score_weighs_six_similarities(query: Seq<char>, cand: Seq<char>)
    requires
        split_words(query).len() > 0,
        split_words(cand).len() > 0,
        token_sort(split_words(query), split_words(cand)).bits <= 0x3F80_0000,
        token_set(split_words(query), split_words(cand)).bits <= 0x3F80_0000,
        alignment(split_words(query), split_words(cand)).bits <= 0x3F80_0000,
        Single::of_double(jaro_winkler_bits(query, cand)).bits <= 0x3F80_0000,
        Single::of_double(normalized_levenshtein_bits(query, cand)).bits <= 0x3F80_0000,
        Single::of_double(sorensen_dice_bits(query, cand)).bits <= 0x3F80_0000,
    ensures
        ({
            let score = fuzzy_score(query, cand).scaled();
            let sort = token_sort(split_words(query), split_words(cand)).scaled();
            let set = token_set(split_words(query), split_words(cand)).scaled();
            let align = alignment(split_words(query), split_words(cand)).scaled();
            let jaro = Single::of_double(jaro_winkler_bits(query, cand)).scaled();
            let edit = Single::of_double(normalized_levenshtein_bits(query, cand)).scaled();
            let dice = Single::of_double(sorensen_dice_bits(query, cand)).scaled();
            let exact = 95 * (28 * sort + 21 * set + 21 * align + 12 * jaro + 9 * edit + 9 * dice);
            -pow2(142) <= 100 * score - exact <= pow2(142)
        }),
{
    let q = split_words(query);
    let c = split_words(cand);
    let a = token_sort(q, c);
    let b = token_set(q, c);
    let m = alignment(q, c);
    let j = jaro_similarity(query, cand);
    let l = edit_similarity(query, cand);
    let d = dice_similarity(query, cand);
    lemma_blend(a, b, m);
    lemma_blend(j, l, d);
    lemma_blend_value(a, b, m);
    lemma_blend_value(j, l, d);
    lemma_scale_value(blend(a, b, m), blend(j, l, d));
    lemma2_to64();
    lemma_pow2_adds(17, 125);
    lemma_pow2_pos(125);
}

/// Blends three similarities, the first of which weighs most.
pub fn blend_three(a: Single, b: Single, c: Single) -> (r: Single)
    requires
        a.bits <= ONE_BITS,
        b.bits <= ONE_BITS,
        c.bits <= ONE_BITS,
    ensures
        r == blend(a, b, c),
        r.bits <= ONE_BITS,
{
    proof {
        lemma_blend(a, b, c);
    }
    let four = Single { bits: FOUR_TENTHS_BITS };
    let three = Single { bits: THREE_TENTHS_BITS };
    a.times(four).plus(b.times(three)).plus(c.times(three))
}

/// Blends the three similarities of words and the three of whole texts and scales the result.
pub fn blended(
    sort: Single,
    set: Single,
    align: Single,
    jaro: Single,
    edit: Single,
    dice: Single,
) -> (score: Single)
    requires
        sort.bits <= ONE_BITS,
        set.bits <= ONE_BITS,
        align.bits <= ONE_BITS,
        jaro.bits <= ONE_BITS,
        edit.bits <= ONE_BITS,
        dice.bits <= ONE_BITS,
    ensures
        score == scale(blend(sort, set, align), blend(jaro, edit, dice)),
        score.bits <= NINETY_FIVE_BITS,
        sort.bits == set.bits == align.bits == jaro.bits == edit.bits == dice.bits == ONE_BITS
            ==> score.bits == NINETY_FIVE_BITS,
{
    proof {
        lemma_highest();
    }
    let raw = blend_three(sort, set, align);
    let anchor = blend_three(jaro, edit, dice);
    proof {
        lemma_scale(raw, anchor);
    }
    let seven = Single { bits: SEVEN_TENTHS_BITS };
    let three = Single { bits: THREE_TENTHS_BITS };
    raw.times(seven).plus(anchor.times(three)).times(Single { bits: NINETY_FIVE_BITS })
}

/// The sum of the best similarities, word by word.
fn align(q: &[Vec<char>], c: &[Vec<char>]) -> (r: Single)
    requires
        q@.len() > 0,
    ensures
        r == alignment(words_of(q@), words_of(c@)),
        r.bits <= ONE_BITS,
        words_of(q@) == words_of(c@) && q@.len() <= COUNTED_MAX ==> r.bits == ONE_BITS,
{
    let ghost qw = words_of(q@);
    let ghost cw = words_of(c@);
    let mut candidates: Vec<String> = Vec::new();
    let mut j: usize = 0;
    while j < c.len()
        invariant
            j <= c@.len(),
            candidates@.len() == j,
            cw == words_of(c@),
            forall|k: int| 0 <= k < j ==> (#[trigger] candidates@[k])@ == cw[k],
        decreases c.len() - j,
    {
        candidates.push(text_of(&c[j]));
        j = j + 1;
    }
    let mut total = Single { bits: 0 };
    let mut i: usize = 0;
    proof {
        lemma_small_count(0);
        lemma_grid(0, 0);
        lemma_same_value(total, Single::of_count(0));
    }
    while i < q.len()
        invariant
            i <= q@.len(),
            qw == words_of(q@),
            cw == words_of(c@),
            candidates@.len() == c@.len(),
            forall|k: int|
                0 <= k < candidates@.len() ==> (#[trigger] candidates@[k])@ == cw[k],
            total == best_words(qw, cw, i as nat),
            total.bits <= Single::of_count(i as int).bits,
            total.bits <= 0x4B80_0000,
            qw == cw && i <= COUNTED_MAX ==> total == Single::of_count(i as int),
        decreases q.len() - i,
    {
        let word = text_of(&q[i]);
        let mut best = Single { bits: 0 };
        let mut k: usize = 0;
        while k < candidates.len()
            invariant
                k <= candidates@.len(),
                candidates@.len() == c@.len(),
                cw == words_of(c@),
                i < qw.len(),
                word@ == qw[i as int],
                forall|h: int|
                    0 <= h < candidates@.len() ==> (#[trigger] candidates@[h])@ == cw[h],
                best == best_word(qw[i as int], cw, k as nat),
                best.bits <= ONE_BITS,
                qw == cw && i < k ==> best.bits == ONE_BITS,
            decreases candidates.len() - k,
        {
            best = best.max(jaro(&word, &candidates[k]));
            k = k + 1;
        }
        proof {
            lemma_running_sum(total, best, i as int);
            if i < COUNTED_MAX {
                lemma_count_up(i as int);
            }
        }
        total = total.plus(best);
        i = i + 1;
    }
    proof {
        lemma_count(i as int);
        lemma_quotient_at_most_one(total, Single::of_count(i as int));
        if qw == cw && i <= COUNTED_MAX {
            lemma_small_count(i as int);
            lemma_pow2_pos(149);
            assert(i * pow2(149) > 0) by (nonlinear_arith)
                requires
                    i > 0,
                    pow2(149) > 0,
            ;
            lemma_over_itself(total);
        }
    }
    total.over(Single::from_count(q.len()))
}

/// The token set ratio.
fn compare_sets(q_sorted: &[Vec<char>], c_sorted: &[Vec<char>]) -> (r: Single)
    requires
        crate::words::ascending(words_of(q_sorted@)),
        crate::words::ascending(words_of(c_sorted@)),
    ensures
        r == token_set(words_of(q_sorted@), words_of(c_sorted@)),
        r.bits <= ONE_BITS,
        words_of(q_sorted@) == words_of(c_sorted@) ==> r.bits == ONE_BITS,
{
    let q_set = distinct(q_sorted);
    let c_set = distinct(c_sorted);
    let shared = common(&q_set, &c_set);
    proof {
        let q = words_of(q_sorted@).to_set();
        let c = words_of(c_sorted@).to_set();
        assert(q.intersect(c).union(q.difference(c)) == q);
        assert(q.intersect(c).union(c.difference(q)) == c);
    }
    let t0 = join(&shared);
    let t1 = join(&q_set);
    let t2 = join(&c_set);
    edit(&t0, &t1).max(edit(&t0, &t2)).max(edit(&t1, &t2))
}

impl StructuralSearchEngine {
    /// Computes a robust similarity score blending Token Sort, Token Set, and morphological
    /// alignment. The score lies between 0 and 95; the scores above are left to exact matches. A
    /// text scores 95 against itself, as long as it has words and these can be counted in single
    /// precision.
    pub fn compute_fuzzy_score(query_norm: &str, cand_norm: &str) -> (score: Single)
        ensures
            score == fuzzy_score(query_norm@, cand_norm@),
            score.bits <= NINETY_FIVE_BITS,
            query_norm@ == cand_norm@ && 0 < split_words(query_norm@).len() <= COUNTED_MAX
                ==> score.bits == NINETY_FIVE_BITS,
            split_words(query_norm@).len() > 0 && split_words(cand_norm@).len() > 0 ==> ({
                let sort = token_sort(split_words(query_norm@), split_words(cand_norm@)).scaled();
                let set = token_set(split_words(query_norm@), split_words(cand_norm@)).scaled();
                let align = alignment(split_words(query_norm@), split_words(cand_norm@)).scaled();
                let jaro = Single::of_double(jaro_winkler_bits(query_norm@, cand_norm@)).scaled();
                let edit = Single::of_double(
                    normalized_levenshtein_bits(query_norm@, cand_norm@),
                ).scaled();
                let dice = Single::of_double(sorensen_dice_bits(query_norm@, cand_norm@)).scaled();
                let exact = 95 * (28 * sort + 21 * set + 21 * align + 12 * jaro + 9 * edit + 9
                    * dice);
                -pow2(142) <= 100 * score.scaled() - exact <= pow2(142)
            }),
    {
        let q_tokens = split(&chars_of(query_norm));
        let c_tokens = split(&chars_of(cand_norm));
        if q_tokens.len() == 0 || c_tokens.len() == 0 {
            return Single { bits: 0 };
        }
        let q_sorted = sort(&q_tokens);
        let c_sorted = sort(&c_tokens);
        let by_sort = edit(&join(&q_sorted), &join(&c_sorted));
        let by_set = compare_sets(&q_sorted, &c_sorted);
        let by_word = align(&q_tokens, &c_tokens);
        let by_jaro = jaro(query_norm, cand_norm);
        let by_edit = edit(query_norm, cand_norm);
        let by_dice = dice(query_norm, cand_norm);
        proof {
            law_score_weighs_six_similarities(query_norm@, cand_norm@);
        }
        blended(by_sort, by_set, by_word, by_jaro, by_edit, by_dice)
    }
}

proof fn lemma_sorted(words: Seq<Seq<char>>, sorted: Seq<Seq<char>>)
    requires
        sorted.to_multiset() == words.to_multiset(),
        forall|i: int, j: int|
            0 <= i < j < sorted.len() ==> comes_before(#[trigger] sorted[i], #[trigger] sorted[j]),
    ensures
        sorting(words) == sorted,
{
    assert forall|i: int, j: int| 0 <= i < j < sorted.len() implies lex_le(
        #[trigger] sorted[i],
        #[trigger] sorted[j],
    ) by {
        lemma_comes_before(sorted[i], sorted[j]);
    }
    lemma_sorting(sorted, words);
}

/// The order of the words does not count for the first similarity: it is the Levenshtein similarity
/// of the words of either side in the order of the dictionary, each as often as it stands there.
pub proof fn law_order_of_words_does_not_count(
    q: Seq<Seq<char>>,
    c: Seq<Seq<char>>,
    q_sorted: Seq<Seq<char>>,
    c_sorted: Seq<Seq<char>>,
)
    requires
        q_sorted.to_multiset() == q.to_multiset(),
        c_sorted.to_multiset() == c.to_multiset(),
        forall|i: int, j: int|
            0 <= i < j < q_sorted.len() ==> comes_before(
                #[trigger] q_sorted[i],
                #[trigger] q_sorted[j],
            ),
        forall|i: int, j: int|
            0 <= i < j < c_sorted.len() ==> comes_before(
                #[trigger] c_sorted[i],
                #[trigger] c_sorted[j],
            ),
    ensures
        token_sort(q, c) == Single::of_double(
            normalized_levenshtein_bits(join_words(q_sorted), join_words(c_sorted)),
        ),
{
    lemma_sorted(q, q_sorted);
    lemma_sorted(c, c_sorted);
}

proof fn lemma_listed(set: Set<Seq<char>>, listed: Seq<Seq<char>>)
    requires
        listed.to_set() == set,
        forall|i: int, j: int|
            0 <= i < j < listed.len() ==> comes_before(#[trigger] listed[i], #[trigger] listed[j])
                && listed[i] != listed[j],
    ensures
        listing(set) == listed,
{
    assert forall|i: int, j: int| 0 <= i < j < listed.len() implies lex_le(
        #[trigger] listed[i],
        #[trigger] listed[j],
    ) && listed[i] != listed[j] by {
        lemma_comes_before(listed[i], listed[j]);
    }
    lemma_listing(listed, set);
}

/// The second similarity is the best one among three lists of words, each word once and in the
/// order of the dictionary: the words that both sides have, those of the query and those of the
/// candidate.
pub proof fn law_sets_of_words_are_compared(
    q: Seq<Seq<char>>,
    c: Seq<Seq<char>>,
    shared: Seq<Seq<char>>,
    q_listed: Seq<Seq<char>>,
    c_listed: Seq<Seq<char>>,
)
    requires
        forall|w: Seq<char>| #[trigger]
            shared.contains(w) <==> q.contains(w) && c.contains(w),
        forall|w: Seq<char>| #[trigger] q_listed.contains(w) <==> q.contains(w),
        forall|w: Seq<char>| #[trigger] c_listed.contains(w) <==> c.contains(w),
        forall|i: int, j: int|
            0 <= i < j < shared.len() ==> comes_before(#[trigger] shared[i], #[trigger] shared[j])
                && shared[i] != shared[j],
        forall|i: int, j: int|
            0 <= i < j < q_listed.len() ==> comes_before(
                #[trigger] q_listed[i],
                #[trigger] q_listed[j],
            ) && q_listed[i] != q_listed[j],
        forall|i: int, j: int|
            0 <= i < j < c_listed.len() ==> comes_before(
                #[trigger] c_listed[i],
                #[trigger] c_listed[j],
            ) && c_listed[i] != c_listed[j],
    ensures
        ({
            let t0 = join_words(shared);
            let t1 = join_words(q_listed);
            let t2 = join_words(c_listed);
            let a = Single::of_double(normalized_levenshtein_bits(t0, t1)).bits;
            let b = Single::of_double(normalized_levenshtein_bits(t0, t2)).bits;
            let d = Single::of_double(normalized_levenshtein_bits(t1, t2)).bits;
            let best = token_set(q, c).bits;
            &&& best >= a && best >= b && best >= d
            &&& best == a || best == b || best == d
        }),
{
    let both = q.to_set().intersect(c.to_set());
    assert(shared.to_set() == both);
    assert(q_listed.to_set() == both.union(q.to_set().difference(c.to_set()))) by {
        assert forall|w: Seq<char>| q_listed.to_set().contains(w) == both.union(
            q.to_set().difference(c.to_set()),
        ).contains(w) by {
            assert(q_listed.contains(w) <==> q.contains(w));
        }
    }
    assert(c_listed.to_set() == both.union(c.to_set().difference(q.to_set()))) by {
        assert forall|w: Seq<char>| c_listed.to_set().contains(w) == both.union(
            c.to_set().difference(q.to_set()),
        ).contains(w) by {
            assert(c_listed.contains(w) <==> c.contains(w));
        }
    }
    lemma_listed(both, shared);
    lemma_listed(both.union(q.to_set().difference(c.to_set())), q_listed);
    lemma_listed(both.union(c.to_set().difference(q.to_set())), c_listed);
}

proof fn lemma_best_word(w: Seq<char>, c: Seq<Seq<char>>, n: nat)
    requires
        n <= c.len(),
        forall|j: int|
            0 <= j < c.len() ==> Single::of_double(
                jaro_winkler_bits(w, #[trigger] c[j]),
            ).bits <= ONE_BITS,
    ensures
        best_word(w, c, n).bits <= ONE_BITS,
        forall|j: int|
            0 <= j < n ==> best_word(w, c, n).bits >= Single::of_double(
                jaro_winkler_bits(w, #[trigger] c[j]),
            ).bits,
        n > 0 ==> exists|j: int|
            0 <= j < n && best_word(w, c, n).bits == Single::of_double(
                jaro_winkler_bits(w, #[trigger] c[j]),
            ).bits,
    decreases n,
{
    if n > 0 {
        let m = (n - 1) as nat;
        lemma_best_word(w, c, m);
        let here = jaro_similarity(w, c[m as int]);
        assert(Single::of_double(jaro_winkler_bits(w, c[m as int])).bits == here.bits);
        if best_word(w, c, m).bits < here.bits || m == 0 {
            assert(best_word(w, c, n).bits == Single::of_double(
                jaro_winkler_bits(w, c[m as int]),
            ).bits);
        } else {
            let j = choose|j: int|
                0 <= j < m && best_word(w, c, m).bits == Single::of_double(
                    jaro_winkler_bits(w, #[trigger] c[j]),
                ).bits;
            assert(best_word(w, c, n).bits == Single::of_double(
                jaro_winkler_bits(w, c[j]),
            ).bits);
        }
    }
}

/// For a single word the third similarity is that with the most similar word of the candidate.
pub proof fn law_word_is_aligned_with_the_most_similar_one(w: Seq<char>, c: Seq<Seq<char>>)
    requires
        c.len() > 0,
        forall|j: int|
            0 <= j < c.len() ==> Single::of_double(
                jaro_winkler_bits(w, #[trigger] c[j]),
            ).bits <= 0x3F80_0000,
    ensures
        forall|j: int|
            0 <= j < c.len() ==> alignment(seq![w], c).bits >= Single::of_double(
                jaro_winkler_bits(w, #[trigger] c[j]),
            ).bits,
        exists|j: int|
            0 <= j < c.len() && alignment(seq![w], c).bits == Single::of_double(
                jaro_winkler_bits(w, #[trigger] c[j]),
            ).bits,
{
    let q = seq![w];
    let best = best_word(w, c, c.len());
    let zero = Single { bits: 0 };
    let one = Single { bits: ONE_BITS };
    lemma_best_word(w, c, c.len());
    reveal_with_fuel(best_words, 2);
    assert(best_words(q, c, 1) == zero.sum(best));
    lemma_grid(0, 0);
    lemma_exact(best, 1);
    lemma2_to64();
    assert(zero.significand() == 0 && zero.exponent() == 0);
    assert(zero.scaled() == 0);
    assert(zero.scaled() + best.scaled() == best.scaled() * 1);
    assert(zero.sum(best) == best);
    lemma_small_count(1);
    lemma_one();
    lemma_same_value(Single::of_count(1), one);
    lemma_pow2_pos(149);
    lemma_exact(best, pow2(149) as int);
    assert(best.quotient(one) == best);
    assert(alignment(q, c) == best);
}

proof fn lemma_first_words(q: Seq<Seq<char>>, w: Seq<char>, c: Seq<Seq<char>>, n: nat)
    requires
        n <= q.len(),
    ensures
        best_words(q.push(w), c, n) == best_words(q, c, n),
    decreases n,
{
    if n > 0 {
        lemma_first_words(q, w, c, (n - 1) as nat);
    }
}

proof fn lemma_total(q: Seq<Seq<char>>, c: Seq<Seq<char>>, n: nat)
    requires
        n <= q.len() <= 0x100_0000,
        forall|i: int, j: int|
            0 <= i < q.len() && 0 <= j < c.len() ==> Single::of_double(
                jaro_winkler_bits(#[trigger] q[i], #[trigger] c[j]),
            ).bits <= ONE_BITS,
    ensures
        best_words(q, c, n).bits <= Single::of_count(n as int).bits,
        best_words(q, c, n).bits <= 0x4B80_0000,
    decreases n,
{
    if n == 0 {
        lemma_small_count(0);
    } else {
        let m = (n - 1) as nat;
        lemma_total(q, c, m);
        assert forall|j: int| 0 <= j < c.len() implies Single::of_double(
            jaro_winkler_bits(q[m as int], #[trigger] c[j]),
        ).bits <= ONE_BITS by {}
        lemma_best_word(q[m as int], c, c.len());
        lemma_running_sum(
            best_words(q, c, m),
            best_word(q[m as int], c, c.len()),
            m as int,
        );
    }
}

/// The third similarity times the number of words is the sum that was made of the words.
proof fn lemma_mean(total: Single, n: int)
    requires
        1 <= n <= 1024,
        total.bits <= Single::of_count(n).bits,
        total.bits <= 0x4B80_0000,
    ensures
        ({
            let mean = total.quotient(Single::of_count(n));
            &&& -(n * pow2(125)) <= n * mean.scaled() - total.scaled() <= n * pow2(125)
            &&& total.scaled() <= n * pow2(149)
        }),
{
    let count = Single::of_count(n);
    let mean = total.quotient(count);
    let u = pow2(149) as int;
    let e = pow2(125) as int;
    lemma_pow2_pos(149);
    lemma_small_count(n);
    lemma_scaled_bound(total);
    if total.bits < count.bits {
        lemma_monotone(total, count);
    }
    let d = count.scaled();
    let t = total.scaled();
    assert(d > 0) by (nonlinear_arith)
        requires
            d == n * u,
            n > 0,
            u > 0,
    ;
    assert(0 <= t * u <= d * u) by (nonlinear_arith)
        requires
            0 <= t <= d,
            u > 0,
    ;
    lemma_pow2_strictly_increases(149, 276);
    assert(t * u < d * pow2(276)) by (nonlinear_arith)
        requires
            t * u <= d * u,
            u < pow2(276),
            d > 0,
    ;
    lemma_nearest_exists(t * u, d, 252);
    lemma_rounding_error(mean, t * u, d, 0);
    let m = mean.scaled();
    assert(-(n * e) <= n * m - t <= n * e) by (nonlinear_arith)
        requires
            -(d * e) <= m * d - t * u <= d * e,
            d == n * u,
            u > 0,
    ;
}

/// Each word of the query has the same weight in the third similarity: one more word moves the sum
/// over all words by what that word alone has, up to an error below a thousandth.
pub proof fn law_words_have_equal_weight(q: Seq<Seq<char>>, w: Seq<char>, c: Seq<Seq<char>>)
    requires
        1 <= q.len() < 1024,
        c.len() > 0,
        forall|i: int, j: int|
            0 <= i <= q.len() && 0 <= j < c.len() ==> Single::of_double(
                jaro_winkler_bits(#[trigger] q.push(w)[i], #[trigger] c[j]),
            ).bits <= 0x3F80_0000,
    ensures
        ({
            let n = q.len() as int;
            let sum = n * alignment(q, c).scaled() + alignment(seq![w], c).scaled();
            -pow2(137) <= (n + 1) * alignment(q.push(w), c).scaled() - sum <= pow2(137)
        }),
{
    let n = q.len();
    let more = q.push(w);
    let total = best_words(q, c, n);
    let best = best_word(w, c, c.len());
    assert forall|i: int, j: int| 0 <= i < q.len() && 0 <= j < c.len() implies Single::of_double(
        jaro_winkler_bits(#[trigger] q[i], #[trigger] c[j]),
    ).bits <= ONE_BITS by {
        assert(more[i] == q[i]);
    }
    assert forall|j: int| 0 <= j < c.len() implies Single::of_double(
        jaro_winkler_bits(w, #[trigger] c[j]),
    ).bits <= ONE_BITS by {
        assert(more[n as int] == w);
    }
    lemma_first_words(q, w, c, n);
    lemma_total(q, c, n);
    lemma_total(more, c, n + 1);
    lemma_best_word(w, c, c.len());
    lemma_mean(total, n as int);
    assert(best_words(more, c, n + 1) == total.sum(best));
    lemma_mean(total.sum(best), n as int + 1);
    law_word_is_aligned_with_the_most_similar_one(w, c);
    lemma_same_best(w, c);
    let top = Single { bits: 0x4B80_0000 };
    lemma_one();
    lemma_scaled_bound(best);
    lemma_scaled_bound(total);
    if best.bits < ONE_BITS {
        lemma_monotone(best, Single { bits: ONE_BITS });
    }
    lemma_sum_at_most(total, best, top);
    lemma2_to64();
    lemma_pow2_adds(10, 149);
    lemma_pow2_adds(10, 125);
    lemma_pow2_unfold(136);
    lemma_pow2_unfold(137);
    let u = pow2(149) as int;
    lemma_pow2_pos(149);
    assert(total.scaled() + best.scaled() <= 1024 * u) by (nonlinear_arith)
        requires
            total.scaled() <= n * u,
            best.scaled() <= u,
            n <= 1023,
            u > 0,
    ;
    lemma_rounding_error(total.sum(best), total.scaled() + best.scaled(), 1, 10);
    let e = pow2(125) as int;
    lemma_pow2_pos(125);
    assert(n * e <= 1024 * e && (n + 1) * e <= 1024 * e) by (nonlinear_arith)
        requires
            n <= 1023,
            e > 0,
    ;
}

proof fn lemma_same_best(w: Seq<char>, c: Seq<Seq<char>>)
    requires
        c.len() > 0,
        forall|j: int|
            0 <= j < c.len() ==> Single::of_double(
                jaro_winkler_bits(w, #[trigger] c[j]),
            ).bits <= ONE_BITS,
    ensures
        alignment(seq![w], c) == best_word(w, c, c.len()),
{
    law_word_is_aligned_with_the_most_similar_one(w, c);
    lemma_best_word(w, c, c.len());
    let best = best_word(w, c, c.len());
    let aligned = alignment(seq![w], c);
    let j = choose|j: int|
        0 <= j < c.len() && aligned.bits == Single::of_double(
            jaro_winkler_bits(w, #[trigger] c[j]),
        ).bits;
    let k = choose|k: int|
        0 <= k < c.len() && best.bits == Single::of_double(
            jaro_winkler_bits(w, #[trigger] c[k]),
        ).bits;
    assert(best.bits >= Single::of_double(jaro_winkler_bits(w, c[j])).bits);
    assert(aligned.bits >= Single::of_double(jaro_winkler_bits(w, c[k])).bits);
}

/// Where one of the texts has no words, nothing resembles anything.
pub proof fn law_no_words_no_score(query: Seq<char>, cand: Seq<char>)
    requires
        split_words(query).len() == 0 || split_words(cand).len() == 0,
    ensures
        fuzzy_score(query, cand).bits == 0,
{
}

} // verus!
