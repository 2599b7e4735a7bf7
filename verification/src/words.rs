//! Words: splitting, ordering and joining.
use vstd::prelude::*;

use crate::bridge::white_space;

verus! {

/// The words of a text: its maximal runs of characters that are no white space.
pub open spec fn split_words(s: Seq<char>) -> Seq<Seq<char>>
    decreases s.len(),
{
    if s.len() == 0 {
        Seq::empty()
    } else {
        let before = split_words(s.drop_last());
        if white_space(s.last()) {
            before
        } else if s.len() > 1 && !white_space(s[s.len() - 2]) {
            before.drop_last().push(before.last().push(s.last()))
        } else {
            before.push(seq![s.last()])
        }
    }
}

/// The words with one space between each two.
pub open spec fn join_words(words: Seq<Seq<char>>) -> Seq<char>
    decreases words.len(),
{
    if words.len() == 0 {
        Seq::empty()
    } else if words.len() == 1 {
        words[0]
    } else {
        join_words(words.drop_last()).push(' ') + words.last()
    }
}

/// The order of the dictionary, by code points; a prefix comes first.
pub open spec fn lex_le(a: Seq<char>, b: Seq<char>) -> bool
    decreases a.len(),
{
    if a.len() == 0 {
        true
    } else if b.len() == 0 {
        false
    } else if a[0] == b[0] {
        lex_le(a.drop_first(), b.drop_first())
    } else {
        a[0] < b[0]
    }
}

/// The words stand in ascending order.
pub open spec fn ascending(words: Seq<Seq<char>>) -> bool {
    forall|i: int, j: int|
        0 <= i < j < words.len() ==> lex_le(#[trigger] words[i], #[trigger] words[j])
}

/// The words stand in ascending order and no word occurs twice.
pub open spec fn strictly_ascending(words: Seq<Seq<char>>) -> bool {
    forall|i: int, j: int|
        0 <= i < j < words.len() ==> lex_le(#[trigger] words[i], #[trigger] words[j]) && words[i]
            != words[j]
}

/// `sorted` holds the words of `words`, each as often, in ascending order.
pub open spec fn is_sorting(sorted: Seq<Seq<char>>, words: Seq<Seq<char>>) -> bool {
    ascending(sorted) && sorted.to_multiset() == words.to_multiset()
}

/// The words in ascending order.
pub open spec fn sorting(words: Seq<Seq<char>>) -> Seq<Seq<char>> {
    choose|sorted: Seq<Seq<char>>| is_sorting(sorted, words)
}

/// `listed` holds each word of the set once, in ascending order.
pub open spec fn is_listing(listed: Seq<Seq<char>>, set: Set<Seq<char>>) -> bool {
    strictly_ascending(listed) && listed.to_set() == set
}

/// The words of a set in ascending order.
pub open spec fn listing(set: Set<Seq<char>>) -> Seq<Seq<char>> {
    choose|listed: Seq<Seq<char>>| is_listing(listed, set)
}

/// The words of a vector of words.
pub open spec fn words_of(words: Seq<Vec<char>>) -> Seq<Seq<char>> {
    words.map_values(|w: Vec<char>| w@)
}

proof fn lemma_lex_reflexive(a: Seq<char>)
    ensures
        lex_le(a, a),
    decreases a.len(),
{
    if a.len() > 0 {
        lemma_lex_reflexive(a.drop_first());
    }
}

proof fn lemma_lex_total(a: Seq<char>, b: Seq<char>)
    ensures
        lex_le(a, b) || lex_le(b, a),
    decreases a.len(),
{
    if a.len() > 0 && b.len() > 0 && a[0] == b[0] {
        lemma_lex_total(a.drop_first(), b.drop_first());
    }
}

proof fn lemma_lex_antisymmetric(a: Seq<char>, b: Seq<char>)
    requires
        lex_le(a, b),
        lex_le(b, a),
    ensures
        a == b,
    decreases a.len(),
{
    if a.len() > 0 && b.len() > 0 {
        let a1 = a.drop_first();
        let b1 = b.drop_first();
        lemma_lex_antisymmetric(a1, b1);
        assert(b1.len() == b.len() - 1);
        assert forall|i: int| 0 <= i < a.len() implies a[i] == b[i] by {
            if i > 0 {
                assert(b[i] == b1[i - 1]);
            }
        }
    }
}

proof fn lemma_lex_transitive(a: Seq<char>, b: Seq<char>, c: Seq<char>)
    requires
        lex_le(a, b),
        lex_le(b, c),
    ensures
        lex_le(a, c),
    decreases a.len(),
{
    if a.len() > 0 && b.len() > 0 && c.len() > 0 && a[0] == b[0] && b[0] == c[0] {
        lemma_lex_transitive(a.drop_first(), b.drop_first(), c.drop_first());
    }
}

/// Two ascending sequences of the same words are the same.
proof fn lemma_sorting_unique(a: Seq<Seq<char>>, b: Seq<Seq<char>>)
    requires
        ascending(a),
        ascending(b),
        a.to_multiset() == b.to_multiset(),
    ensures
        a == b,
    decreases a.len(),
{
    a.to_multiset_ensures();
    b.to_multiset_ensures();
    if a.len() > 0 {
        let n = a.len() - 1;
        assert(a.to_multiset().count(a[n]) > 0 && b.to_multiset().count(a[n]) > 0);
        assert(b.to_multiset().count(b[n]) > 0 && a.to_multiset().count(b[n]) > 0);
        lemma_lex_reflexive(b[n]);
        lemma_lex_reflexive(a[n]);
        lemma_lex_antisymmetric(a[n], b[n]);
        assert(a.remove(n) == a.drop_last());
        assert(b.remove(n) == b.drop_last());
        lemma_sorting_unique(a.drop_last(), b.drop_last());
        assert(b == b.drop_last().push(b[n]));
    }
}

/// The sorting of a sequence of words is the one that `sorting` names.
pub proof fn lemma_sorting(sorted: Seq<Seq<char>>, words: Seq<Seq<char>>)
    requires
        is_sorting(sorted, words),
    ensures
        sorting(words) == sorted,
{
    lemma_sorting_unique(sorting(words), sorted);
}

/// Two strictly ascending sequences with the same words are the same.
proof fn lemma_listing_unique(a: Seq<Seq<char>>, b: Seq<Seq<char>>)
    requires
        strictly_ascending(a),
        strictly_ascending(b),
        a.to_set() == b.to_set(),
    ensures
        a == b,
    decreases a.len(),
{
    if a.len() == 0 {
        if b.len() > 0 {
            assert(a.to_set().contains(b[0]));
        }
    } else {
        let n = a.len() - 1;
        assert(b.to_set().contains(a[n]));
        let m = b.len() - 1;
        assert(a.to_set().contains(b[m]));
        lemma_lex_reflexive(b[m]);
        lemma_lex_reflexive(a[n]);
        lemma_lex_antisymmetric(a[n], b[m]);
        let a0 = a.drop_last();
        let b0 = b.drop_last();
        assert forall|w: Seq<char>| a0.to_set().contains(w) == b0.to_set().contains(w) by {
            if a0.to_set().contains(w) {
                assert(b.to_set().contains(w));
                let h = choose|h: int| 0 <= h < b.len() && b[h] == w;
                assert(b0[h] == w);
            }
            if b0.to_set().contains(w) {
                assert(a.to_set().contains(w));
                let h = choose|h: int| 0 <= h < a.len() && a[h] == w;
                assert(a0[h] == w);
            }
        }
        assert(a0.to_set() == b0.to_set());
        lemma_listing_unique(a0, b0);
        assert(b == b0.push(b[m]));
    }
}

/// The listing of a set of words is the one that `listing` names.
pub proof fn lemma_listing(listed: Seq<Seq<char>>, set: Set<Seq<char>>)
    requires
        is_listing(listed, set),
    ensures
        listing(set) == listed,
{
    lemma_listing_unique(listing(set), listed);
}

/// Splits a text into its words.
pub fn split(chars: &[char]) -> (words: Vec<Vec<char>>)
    ensures
        words_of(words@) == split_words(chars@),
{
    let mut words: Vec<Vec<char>> = Vec::new();
    let mut current: Vec<char> = Vec::new();
    let mut i: usize = 0;
    while i < chars.len()
        invariant
            i <= chars@.len(),
            current@.len() > 0 <==> (i > 0 && !white_space(chars@[i - 1])),
            split_words(chars@.take(i as int)) == if current@.len() > 0 {
                words_of(words@).push(current@)
            } else {
                words_of(words@)
            },
        decreases chars.len() - i,
    {
        let c = chars[i];
        let ghost run = current@;
        proof {
            let next = chars@.take(i as int + 1);
            assert(next.drop_last() == chars@.take(i as int));
        }
        if c.is_whitespace() {
            if current.len() > 0 {
                words.push(current);
                current = Vec::new();
            }
        } else {
            current.push(c);
            assert(run.len() == 0 ==> current@ == seq![c]);
        }
        i = i + 1;
    }
    assert(chars@.take(i as int) == chars@);
    if current.len() > 0 {
        words.push(current);
    }
    words
}

/// Joins words with single spaces.
pub fn join(words: &[Vec<char>]) -> (text: String)
    ensures
        text@ == join_words(words_of(words@)),
{
    let mut text = String::new();
    let mut i: usize = 0;
    let ghost all = words_of(words@);
    while i < words.len()
        invariant
            i <= words@.len(),
            all == words_of(words@),
            text@ == join_words(all.take(i as int)),
        decreases words.len() - i,
    {
        proof {
            assert(all.take(i as int + 1).drop_last() == all.take(i as int));
        }
        if i > 0 {
            text.push(' ');
        }
        let ghost start = text@;
        let word = &words[i];
        let mut j: usize = 0;
        while j < word.len()
            invariant
                j <= word@.len(),
                text@ == start + word@.take(j as int),
            decreases word.len() - j,
        {
            text.push(word[j]);
            j = j + 1;
        }
        i = i + 1;
    }
    assert(all.take(i as int) == all);
    text
}

/// Compares two words in the order of the dictionary.
fn not_after(a: &[char], b: &[char]) -> (le: bool)
    ensures
        le == lex_le(a@, b@),
{
    let mut i: usize = 0;
    assert(a@.skip(0) == a@);
    assert(b@.skip(0) == b@);
    while i < a.len() && i < b.len() && a[i] == b[i]
        invariant
            i <= a@.len(),
            i <= b@.len(),
            lex_le(a@, b@) == lex_le(a@.skip(i as int), b@.skip(i as int)),
        decreases a.len() - i,
    {
        proof {
            assert(a@.skip(i as int).drop_first() == a@.skip(i as int + 1));
            assert(b@.skip(i as int).drop_first() == b@.skip(i as int + 1));
        }
        i = i + 1;
    }
    if i >= a.len() {
        true
    } else if i >= b.len() {
        false
    } else {
        a[i] < b[i]
    }
}

fn copy_word(word: &[char]) -> (copy: Vec<char>)
    ensures
        copy@ == word@,
{
    let mut copy: Vec<char> = Vec::new();
    let mut i: usize = 0;
    while i < word.len()
        invariant
            i <= word@.len(),
            copy@ == word@.take(i as int),
        decreases word.len() - i,
    {
        copy.push(word[i]);
        i = i + 1;
    }
    copy
}

/// Sorts words.
pub fn sort(words: &[Vec<char>]) -> (sorted: Vec<Vec<char>>)
    ensures
        words_of(sorted@) == sorting(words_of(words@)),
        ascending(words_of(sorted@)),
        words_of(sorted@).to_set() == words_of(words@).to_set(),
{
    let mut sorted: Vec<Vec<char>> = Vec::new();
    let mut i: usize = 0;
    let ghost all = words_of(words@);
    proof {
        assert(words_of(sorted@) == all.take(0));
    }
    while i < words.len()
        invariant
            i <= words@.len(),
            all == words_of(words@),
            is_sorting(words_of(sorted@), all.take(i as int)),
        decreases words.len() - i,
    {
        let word = copy_word(&words[i]);
        let ghost w = word@;
        let ghost before = words_of(sorted@);
        let mut p: usize = 0;
        while p < sorted.len() && not_after(&sorted[p], &word)
            invariant
                p <= sorted@.len(),
                w == word@,
                before == words_of(sorted@),
                forall|k: int| 0 <= k < p ==> lex_le(#[trigger] before[k], w),
            decreases sorted.len() - p,
        {
            p = p + 1;
        }
        proof {
            if p < sorted@.len() {
                lemma_lex_total(before[p as int], w);
            }
        }
        sorted.insert(p, word);
        proof {
            let after = words_of(sorted@);
            assert(after == before.insert(p as int, w));
            lemma_insert_ascending(before, p as int, w);
            lemma_insert_multiset(before, p as int, w);
            assert(all.take(i as int + 1) == all.take(i as int).push(w));
            vstd::seq_lib::to_multiset_build(all.take(i as int), w);
        }
        i = i + 1;
    }
    proof {
        assert(all.take(i as int) == all);
        lemma_sorting(words_of(sorted@), all);
        lemma_same_words(words_of(sorted@), all);
    }
    sorted
}

proof fn lemma_insert_ascending(words: Seq<Seq<char>>, p: int, w: Seq<char>)
    requires
        ascending(words),
        0 <= p <= words.len(),
        forall|k: int| 0 <= k < p ==> lex_le(#[trigger] words[k], w),
        p < words.len() ==> lex_le(w, words[p]),
    ensures
        ascending(words.insert(p, w)),
{
    let after = words.insert(p, w);
    assert forall|i: int, j: int| 0 <= i < j < after.len() implies lex_le(
        #[trigger] after[i],
        #[trigger] after[j],
    ) by {
        if i == p && j - 1 > p {
            lemma_lex_transitive(w, words[p], words[j - 1]);
        }
    }
}

proof fn lemma_insert_multiset(words: Seq<Seq<char>>, p: int, w: Seq<char>)
    requires
        0 <= p <= words.len(),
    ensures
        words.insert(p, w).to_multiset() == words.to_multiset().insert(w),
{
    broadcast use vstd::seq_lib::group_to_multiset_ensures;

    let after = words.insert(p, w);
    assert(after[p] == w);
}

proof fn lemma_same_words(a: Seq<Seq<char>>, b: Seq<Seq<char>>)
    requires
        a.to_multiset() == b.to_multiset(),
    ensures
        a.to_set() == b.to_set(),
{
    a.to_multiset_ensures();
    b.to_multiset_ensures();
    assert forall|w: Seq<char>| a.to_set().contains(w) == b.to_set().contains(w) by {
        assert(b.contains(w) == (b.to_multiset().count(w) > 0));
    }
}

/// The words of an ascending sequence, each once.
pub fn distinct(words: &[Vec<char>]) -> (kept: Vec<Vec<char>>)
    requires
        ascending(words_of(words@)),
    ensures
        is_listing(words_of(kept@), words_of(words@).to_set()),
        words_of(kept@) == listing(words_of(words@).to_set()),
{
    let mut kept: Vec<Vec<char>> = Vec::new();
    let mut i: usize = 0;
    let ghost all = words_of(words@);
    assert(words_of(kept@).to_set() == all.take(0).to_set());
    while i < words.len()
        invariant
            i <= words@.len(),
            all == words_of(words@),
            ascending(all),
            is_listing(words_of(kept@), all.take(i as int).to_set()),
            i > 0 ==> kept@.len() > 0 && kept@.last()@ == all[i - 1],
            i == 0 ==> kept@.len() == 0,
        decreases words.len() - i,
    {
        let n = kept.len();
        let ghost before = words_of(kept@);
        let ghost w = all[i as int];
        let repeated = n > 0 && crate::text::same_chars(&kept[n - 1], &words[i]);
        proof {
            assert(all.take(i as int + 1) == all.take(i as int).push(w));
        }
        if !repeated {
            kept.push(copy_word(&words[i]));
            proof {
                let after = words_of(kept@);
                assert(after == before.push(w));
                assert forall|j: int| 0 <= j < before.len() implies lex_le(#[trigger] before[j], w)
                    && before[j] != w by {
                    let top = before.len() - 1;
                    if j < top {
                        lemma_lex_transitive(before[j], before[top], w);
                        if before[j] == w {
                            lemma_lex_antisymmetric(before[top], w);
                        }
                    }
                }
                assert(after.to_set() == before.to_set().insert(w)) by {
                    lemma_push_set(before, w);
                }
            }
        } else {
            proof {
                assert(before.to_set().contains(w)) by {
                    assert(before[before.len() - 1] == w);
                }
                assert(before.to_set().insert(w) == before.to_set());
            }
        }
        proof {
            lemma_push_set(all.take(i as int), w);
        }
        i = i + 1;
    }
    proof {
        assert(all.take(i as int) == all);
        lemma_listing(words_of(kept@), all.to_set());
    }
    kept
}

proof fn lemma_push_set(words: Seq<Seq<char>>, w: Seq<char>)
    ensures
        words.push(w).to_set() == words.to_set().insert(w),
{
    assert forall|x: Seq<char>|
        words.push(w).to_set().contains(x) == words.to_set().insert(w).contains(x) by {
        if words.to_set().contains(x) {
            let k = choose|k: int| 0 <= k < words.len() && words[k] == x;
            assert(words.push(w)[k] == x);
        }
        if x == w {
            assert(words.push(w)[words.len() as int] == x);
        }
    }
}

/// The word is one of the words.
fn contains_word(words: &[Vec<char>], word: &[char]) -> (found: bool)
    ensures
        found == words_of(words@).to_set().contains(word@),
{
    let ghost all = words_of(words@);
    let mut i: usize = 0;
    while i < words.len()
        invariant
            i <= words@.len(),
            all == words_of(words@),
            forall|j: int| 0 <= j < i ==> #[trigger] all[j] != word@,
        decreases words.len() - i,
    {
        if crate::text::same_chars(&words[i], word) {
            assert(all[i as int] == word@);
            return true;
        }
        i = i + 1;
    }
    false
}

/// The words of a listing that are also among `others`.
pub fn common(listed: &[Vec<char>], others: &[Vec<char>]) -> (kept: Vec<Vec<char>>)
    requires
        strictly_ascending(words_of(listed@)),
    ensures
        words_of(kept@) == listing(
            words_of(listed@).to_set().intersect(words_of(others@).to_set()),
        ),
{
    let mut kept: Vec<Vec<char>> = Vec::new();
    let mut i: usize = 0;
    let ghost all = words_of(listed@);
    let ghost rest = words_of(others@).to_set();
    assert(words_of(kept@).to_set() == all.take(0).to_set().intersect(rest));
    while i < listed.len()
        invariant
            i <= listed@.len(),
            all == words_of(listed@),
            rest == words_of(others@).to_set(),
            strictly_ascending(all),
            is_listing(words_of(kept@), all.take(i as int).to_set().intersect(rest)),
        decreases listed.len() - i,
    {
        let ghost before = words_of(kept@);
        let ghost w = all[i as int];
        proof {
            assert(all.take(i as int + 1) == all.take(i as int).push(w));
            lemma_push_set(all.take(i as int), w);
        }
        if contains_word(others, &listed[i]) {
            kept.push(copy_word(&listed[i]));
            proof {
                assert(words_of(kept@) == before.push(w));
                lemma_push_set(before, w);
                assert forall|j: int| 0 <= j < before.len() implies lex_le(#[trigger] before[j], w)
                    && before[j] != w by {
                    assert(before.to_set().contains(before[j]));
                }
                assert(words_of(kept@).to_set() == all.take(i as int + 1).to_set().intersect(rest));
            }
        } else {
            assert(before.to_set() == all.take(i as int + 1).to_set().intersect(rest));
        }
        i = i + 1;
    }
    proof {
        assert(all.take(i as int) == all);
        lemma_listing(words_of(kept@), all.to_set().intersect(rest));
    }
    kept
}

proof fn lemma_one_word(s: Seq<char>)
    requires
        s.len() > 0,
        forall|i: int| 0 <= i < s.len() ==> !white_space(#[trigger] s[i]),
    ensures
        split_words(s) == seq![s],
    decreases s.len(),
{
    assert(!white_space(s[s.len() - 1]));
    if s.len() > 1 {
        let rest = s.drop_last();
        lemma_one_word(rest);
        assert(!white_space(s[s.len() - 2]));
        assert(rest.push(s.last()) == s);
        assert(split_words(s) == seq![s]);
    } else {
        let none = s.drop_last();
        assert(none.len() == 0);
        assert(split_words(none) == Seq::<Seq<char>>::empty());
        assert(seq![s.last()] == s);
        assert(split_words(s) == seq![s]);
    }
}

/// A text without white space is one word, and the empty text has none.
pub proof fn law_text_without_white_space_is_a_word(s: Seq<char>)
    requires
        forall|i: int|
            0 <= i < s.len() ==> !('\u{0009}' <= (#[trigger] s[i]) <= '\u{000D}') && s[i] != ' '
                && s[i] != '\u{0085}' && s[i] != '\u{00A0}' && s[i] != '\u{1680}' && !('\u{2000}'
                <= s[i] <= '\u{200A}') && s[i] != '\u{2028}' && s[i] != '\u{2029}' && s[i]
                != '\u{202F}' && s[i] != '\u{205F}' && s[i] != '\u{3000}',
    ensures
        s.len() > 0 ==> split_words(s) == seq![s],
        s.len() == 0 ==> split_words(s).len() == 0,
{
    if s.len() > 0 {
        lemma_one_word(s);
    }
}

proof fn lemma_ends_in_word(s: Seq<char>)
    requires
        s.len() > 0,
        !white_space(s.last()),
    ensures
        split_words(s).len() > 0,
{
}

proof fn lemma_split_at(a: Seq<char>, space: char, b: Seq<char>)
    requires
        white_space(space),
    ensures
        split_words(a + seq![space] + b) == split_words(a) + split_words(b),
    decreases b.len(),
{
    let s = a + seq![space] + b;
    if b.len() == 0 {
        assert(s.drop_last() == a);
        assert(split_words(b) == Seq::<Seq<char>>::empty());
        assert(split_words(s) == split_words(a) + split_words(b));
    } else {
        let rest = b.drop_last();
        lemma_split_at(a, space, rest);
        assert(s.drop_last() == a + seq![space] + rest);
        let before = split_words(a) + split_words(rest);
        if !white_space(b.last()) {
            if b.len() > 1 && !white_space(b[b.len() - 2]) {
                assert(s[s.len() - 2] == b[b.len() - 2]);
                lemma_ends_in_word(rest);
                let w = split_words(rest);
                assert(before.drop_last() == split_words(a) + w.drop_last());
                assert(before.last() == w.last());
                assert(split_words(s) == split_words(a) + split_words(b));
            } else {
                if b.len() == 1 {
                    assert(s[s.len() - 2] == space);
                } else {
                    assert(s[s.len() - 2] == b[b.len() - 2]);
                }
                assert(split_words(s) == split_words(a) + split_words(b));
            }
        }
    }
}

/// White space ends a word: the words of a text are those in front of it, and then those behind it.
pub proof fn law_white_space_ends_a_word(a: Seq<char>, space: char, b: Seq<char>)
    requires
        '\u{0009}' <= space <= '\u{000D}' || space == ' ' || space == '\u{0085}' || space
            == '\u{00A0}' || space == '\u{1680}' || '\u{2000}' <= space <= '\u{200A}' || space
            == '\u{2028}' || space == '\u{2029}' || space == '\u{202F}' || space == '\u{205F}'
            || space == '\u{3000}',
    ensures
        split_words(a + seq![space] + b) == split_words(a) + split_words(b),
{
    lemma_split_at(a, space, b);
}

/// Joined lists of words are joined with a space between them; one word is joined to itself.
pub proof fn law_joined_words_have_a_space_between(a: Seq<Seq<char>>, b: Seq<Seq<char>>)
    requires
        a.len() > 0,
        b.len() > 0,
    ensures
        join_words(a + b) == join_words(a) + seq![' '] + join_words(b),
        a.len() == 1 ==> join_words(a) == a[0],
        join_words(Seq::<Seq<char>>::empty()).len() == 0,
    decreases b.len(),
{
    let all = a + b;
    assert(all.drop_last() == a + b.drop_last());
    assert(all.last() == b.last());
    if b.len() == 1 {
        assert(a + b.drop_last() == a);
    } else {
        law_joined_words_have_a_space_between(a, b.drop_last());
        assert(join_words(all) == join_words(a) + seq![' '] + join_words(b));
    }
}

/// `a` comes before `b` in the dictionary, or is the same: up to some place they agree, and there
/// `a` is over or has the smaller character.
pub open spec fn comes_before(a: Seq<char>, b: Seq<char>) -> bool {
    exists|k: int|
        0 <= k <= a.len() && k <= b.len() && #[trigger] a.subrange(0, k) == b.subrange(0, k) && (k
            == a.len() || (k < b.len() && a[k] < b[k]))
}

proof fn lemma_lex_from_difference(a: Seq<char>, b: Seq<char>, k: int)
    requires
        0 <= k <= a.len(),
        k <= b.len(),
        a.subrange(0, k) == b.subrange(0, k),
        k == a.len() || (k < b.len() && a[k] < b[k]),
    ensures
        lex_le(a, b),
    decreases k,
{
    if k > 0 {
        assert(a.subrange(0, k)[0] == a[0]);
        assert(b.subrange(0, k)[0] == b[0]);
        let a1 = a.drop_first();
        let b1 = b.drop_first();
        assert(a1.subrange(0, k - 1) == a.subrange(0, k).drop_first());
        assert(b1.subrange(0, k - 1) == b.subrange(0, k).drop_first());
        lemma_lex_from_difference(a1, b1, k - 1);
    }
}

pub proof fn lemma_comes_before(a: Seq<char>, b: Seq<char>)
    requires
        comes_before(a, b),
    ensures
        lex_le(a, b),
{
    let k = choose|k: int|
        0 <= k <= a.len() && k <= b.len() && #[trigger] a.subrange(0, k) == b.subrange(0, k) && (k
            == a.len() || (k < b.len() && a[k] < b[k]));
    lemma_lex_from_difference(a, b, k);
}

} // verus!
