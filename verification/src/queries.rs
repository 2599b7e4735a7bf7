//! The query editor: its text, one query per line, and the edits of its context menu.
use compact_str::CompactString;
use vstd::prelude::*;
use vstd::string::StringExecFns;

use crate::bridge::{compact, compact_chars, white_space};
use crate::text::{chars_of, text_between};

verus! {

/// The text without white space at its start.
pub open spec fn trim_start(s: Seq<char>) -> Seq<char>
    decreases s.len(),
{
    if s.len() > 0 && white_space(s[0]) {
        trim_start(s.skip(1))
    } else {
        s
    }
}

/// The text without white space at its end.
pub open spec fn trim_end(s: Seq<char>) -> Seq<char>
    decreases s.len(),
{
    if s.len() > 0 && white_space(s.last()) {
        trim_end(s.drop_last())
    } else {
        s
    }
}

/// The text without white space around it.
pub open spec fn trim(s: Seq<char>) -> Seq<char> {
    trim_end(trim_start(s))
}

/// The end of the line that begins at `from`: the index of its line feed, or the end of the text.
pub open spec fn line_end(s: Seq<char>, from: int) -> int
    decreases s.len() - from,
{
    if from >= s.len() || s[from] == '\n' {
        from
    } else {
        line_end(s, from + 1)
    }
}

/// The characters of the line from `from` to its end at `end`. A carriage return in front of the
/// line feed does not belong to the line.
pub open spec fn line_between(s: Seq<char>, from: int, end: int) -> Seq<char> {
    if end < s.len() && from < end && s[end - 1] == '\r' {
        s.subrange(from, end - 1)
    } else {
        s.subrange(from, end)
    }
}

/// The queries on the lines from `from` on: what is left of the lines without the white space
/// around them. Lines on which nothing is left are no queries.
pub open spec fn queries_from(s: Seq<char>, from: int) -> Seq<Seq<char>>
    decreases s.len() + 1 - from,
{
    if from < 0 || from >= s.len() {
        Seq::empty()
    } else {
        proof {
            lemma_line_end(s, from);
        }
        let end = line_end(s, from);
        let query = trim(line_between(s, from, end));
        if query.len() == 0 {
            queries_from(s, end + 1)
        } else {
            seq![query] + queries_from(s, end + 1)
        }
    }
}

/// A line ends at a line feed or with the text, and has no line feed in it.
pub proof fn lemma_line_end(s: Seq<char>, from: int)
    requires
        from <= s.len(),
    ensures
        from <= line_end(s, from) <= s.len(),
        line_end(s, from) < s.len() ==> s[line_end(s, from)] == '\n',
        forall|i: int| from <= i < line_end(s, from) ==> s[i] != '\n',
    decreases s.len() - from,
{
    if from < s.len() && s[from] != '\n' {
        lemma_line_end(s, from + 1);
    }
}

/// The texts of compact strings.
pub open spec fn texts(strings: Seq<CompactString>) -> Seq<Seq<char>> {
    strings.map_values(|s: CompactString| compact_chars(s))
}

/// Removes the white space around the part of a text from `from` to `to`, and tells where what is
/// left begins and ends.
fn trim_range(chars: &[char], from: usize, to: usize) -> (r: (usize, usize))
    requires
        from <= to <= chars@.len(),
    ensures
        from <= r.0 <= r.1 <= to,
        chars@.subrange(r.0 as int, r.1 as int) == trim(chars@.subrange(from as int, to as int)),
{
    let ghost s = chars@.subrange(from as int, to as int);
    let mut start: usize = from;
    while start < to && chars[start].is_whitespace()
        invariant
            from <= start <= to <= chars@.len(),
            trim_start(s) == trim_start(chars@.subrange(start as int, to as int)),
        decreases to - start,
    {
        assert(chars@.subrange(start as int, to as int).skip(1) == chars@.subrange(
            start + 1,
            to as int,
        ));
        start = start + 1;
    }
    let ghost t = chars@.subrange(start as int, to as int);
    let mut end: usize = to;
    while end > start && chars[end - 1].is_whitespace()
        invariant
            start <= end <= to <= chars@.len(),
            trim_end(t) == trim_end(chars@.subrange(start as int, end as int)),
        decreases end - start,
    {
        assert(chars@.subrange(start as int, end as int).drop_last() == chars@.subrange(
            start as int,
            end - 1,
        ));
        end = end - 1;
    }
    (start, end)
}

/// The queries of a text, one per line.
pub fn parse_queries(text: &str) -> (queries: Vec<CompactString>)
    ensures
        texts(queries@) == queries_from(text@, 0),
{
    let chars = chars_of(text);
    let n = chars.len();
    let mut queries: Vec<CompactString> = Vec::new();
    let mut from: usize = 0;
    while from < n
        invariant
            n == chars@.len(),
            chars@ == text@,
            from <= n,
            texts(queries@) + queries_from(text@, from as int) == queries_from(text@, 0),
        decreases n - from,
    {
        let mut end: usize = from;
        while end < n && chars[end] != '\n'
            invariant
                from <= end <= n,
                n == chars@.len(),
                line_end(chars@, from as int) == line_end(chars@, end as int),
            decreases n - end,
        {
            end = end + 1;
        }
        let stop: usize = if end < n && from < end && chars[end - 1] == '\r' {
            end - 1
        } else {
            end
        };
        let (a, b) = trim_range(&chars, from, stop);
        if a < b {
            queries.push(compact(&text_between(&chars, a, b)));
        }
        if end < n {
            from = end + 1;
        } else {
            assert(queries_from(text@, end + 1) == queries_from(text@, n as int));
            from = n;
        }
    }
    queries
}

/// The first `n` characters of a text, or all of them if there are fewer.
pub open spec fn at_most(s: Seq<char>, n: int) -> Seq<char> {
    if n < s.len() {
        s.take(n)
    } else {
        s
    }
}

/// The text behind the first `n` characters.
pub open spec fn behind(s: Seq<char>, n: int) -> Seq<char> {
    if n < s.len() {
        s.skip(n)
    } else {
        Seq::empty()
    }
}

/// The characters of a text from `start` up to `end`, as far as there are any.
pub open spec fn selection(s: Seq<char>, start: int, end: int) -> Seq<char> {
    at_most(behind(s, start), end - start)
}

/// A text in which the characters from `start` up to `end` were replaced.
pub open spec fn replaced(s: Seq<char>, start: int, end: int, new: Seq<char>) -> Seq<char> {
    at_most(s, start) + new + behind(s, end)
}

/// What becomes of the selection in a frame.
#[derive(Clone, Copy, PartialEq, Eq, Debug, Structural)]
pub enum SelectionStep {
    /// It is remembered.
    Remember,
    /// The one that was remembered is restored.
    Restore,
    Leave,
}

/// Decides what becomes of the selection. A secondary click inside the editor would collapse it:
/// while one is going on, the remembered selection is restored.
pub fn track_selection(
    has_selection: bool,
    secondary_down: bool,
    secondary_pressed: bool,
    hovered: bool,
) -> (step: SelectionStep)
    ensures
        step == if (secondary_down || secondary_pressed) && hovered {
            SelectionStep::Restore
        } else if has_selection {
            SelectionStep::Remember
        } else {
            SelectionStep::Leave
        },
{
    if (secondary_down || secondary_pressed) && hovered {
        SelectionStep::Restore
    } else if has_selection {
        SelectionStep::Remember
    } else {
        SelectionStep::Leave
    }
}

/// The text of a selection.
pub fn selected_text(text: &str, start: usize, end: usize) -> (selected: String)
    requires
        start <= end,
    ensures
        selected@ == selection(text@, start as int, end as int),
{
    let chars = chars_of(text);
    let n = chars.len();
    let from = if start < n {
        start
    } else {
        n
    };
    let to = if end < n {
        end
    } else {
        n
    };
    let selected = text_between(&chars, from, to);
    selected
}

/// Replaces a selection.
pub fn replace_selection(text: &str, start: usize, end: usize, new: &str) -> (r: String)
    ensures
        r@ == replaced(text@, start as int, end as int, new@),
{
    let chars = chars_of(text);
    let n = chars.len();
    let from = if start < n {
        start
    } else {
        n
    };
    let to = if end < n {
        end
    } else {
        n
    };
    let mut r = text_between(&chars, 0, from);
    r.append(new);
    r.append(&text_between(&chars, to, n));
    r
}

/// Text that replaced a selection can be selected again, from the start of the selection to the
/// caret behind the text.
pub proof fn law_pasted_text_can_be_selected(
    text: Seq<char>,
    start: int,
    end: int,
    pasted: Seq<char>,
)
    requires
        0 <= start <= text.len(),
        start <= end,
    ensures
        selection(replaced(text, start, end, pasted), start, start + pasted.len()) == pasted,
{
}

/// Pasting what is selected changes nothing.
pub proof fn law_pasting_the_selection_changes_nothing(text: Seq<char>, start: int, end: int)
    requires
        0 <= start <= end,
    ensures
        replaced(text, start, end, selection(text, start, end)) == text,
{
}

proof fn lemma_trim_start(s: Seq<char>)
    ensures
        trim_start(s).len() <= s.len(),
        trim_start(s) == s.skip(s.len() - trim_start(s).len()),
        trim_start(s).len() > 0 ==> !white_space(trim_start(s)[0]),
    decreases s.len(),
{
    if s.len() > 0 && white_space(s[0]) {
        lemma_trim_start(s.skip(1));
    }
}

proof fn lemma_trim_end(s: Seq<char>)
    ensures
        trim_end(s).len() <= s.len(),
        trim_end(s) == s.take(trim_end(s).len() as int),
        trim_end(s).len() > 0 ==> !white_space(trim_end(s).last()),
    decreases s.len(),
{
    if s.len() > 0 && white_space(s.last()) {
        lemma_trim_end(s.drop_last());
    }
}

/// Every query has something in it, has no white space around it and stands on one line.
pub proof fn law_queries_are_tidy(s: Seq<char>, from: int, i: int)
    requires
        0 <= from,
        0 <= i < queries_from(s, from).len(),
    ensures
        ({
            let query = queries_from(s, from)[i];
            &&& query.len() > 0
            &&& !white_space(query[0])
            &&& !white_space(query.last())
            &&& !query.contains('\n')
        }),
    decreases s.len() + 1 - from,
{
    if from < s.len() {
        lemma_line_end(s, from);
        let end = line_end(s, from);
        let line = line_between(s, from, end);
        let query = trim(line);
        lemma_trim_start(line);
        lemma_trim_end(trim_start(line));
        if query.len() == 0 {
            law_queries_are_tidy(s, end + 1, i);
        } else if i > 0 {
            law_queries_are_tidy(s, end + 1, i - 1);
        }
    }
}

proof fn lemma_line_end_behind(before: Seq<char>, s: Seq<char>, from: int)
    requires
        0 <= from <= s.len(),
    ensures
        line_end(before + s, before.len() + from) == before.len() + line_end(s, from),
    decreases s.len() - from,
{
    if from < s.len() && s[from] != '\n' {
        lemma_line_end_behind(before, s, from + 1);
    }
}

proof fn lemma_queries_behind(before: Seq<char>, s: Seq<char>, from: int)
    requires
        0 <= from,
    ensures
        queries_from(before + s, before.len() + from) == queries_from(s, from),
    decreases s.len() + 1 - from,
{
    if from < s.len() {
        lemma_line_end(s, from);
        lemma_line_end_behind(before, s, from);
        let end = line_end(s, from);
        assert(line_between(before + s, before.len() + from, before.len() + end) == line_between(
            s,
            from,
            end,
        ));
        lemma_queries_behind(before, s, end + 1);
    }
}

proof fn lemma_line_end_in_front(s: Seq<char>, after: Seq<char>, from: int)
    requires
        0 <= from <= s.len(),
    ensures
        line_end(s + seq!['\n'] + after, from) == line_end(s, from),
    decreases s.len() - from,
{
    if from < s.len() && s[from] != '\n' {
        lemma_line_end_in_front(s, after, from + 1);
    }
}

proof fn lemma_trim_space_behind(s: Seq<char>, c: char)
    requires
        white_space(c),
    ensures
        trim(s.push(c)) == trim(s),
    decreases s.len(),
{
    if s.len() > 0 && white_space(s[0]) {
        assert(s.push(c).skip(1) == s.skip(1).push(c));
        lemma_trim_space_behind(s.skip(1), c);
    } else if s.len() == 0 {
        assert(s.push(c).skip(1) == s);
    } else {
        assert(s.push(c).drop_last() == s);
    }
}

proof fn lemma_queries_in_front(s: Seq<char>, after: Seq<char>, from: int)
    requires
        0 <= from <= s.len(),
    ensures
        queries_from(s + seq!['\n'] + after, from) == queries_from(s, from) + queries_from(
            after,
            0,
        ),
    decreases s.len() + 1 - from,
{
    let all = s + seq!['\n'] + after;
    let end = line_end(s, from);
    lemma_line_end(s, from);
    lemma_line_end_in_front(s, after, from);
    if from < s.len() {
        if end == s.len() && s.last() == '\r' {
            let line = s.subrange(from, end - 1);
            assert(line_between(all, from, end) == line);
            assert(line_between(s, from, end) == line.push('\r'));
            lemma_trim_space_behind(line, '\r');
        } else {
            assert(line_between(all, from, end) == line_between(s, from, end));
        }
    }
    if end < s.len() {
        lemma_queries_in_front(s, after, end + 1);
    } else {
        lemma_queries_behind(s + seq!['\n'], after, 0);
        assert(queries_from(s, end + 1) == Seq::<Seq<char>>::empty());
    }
}

/// Queries stand on lines: those of two texts, one above the other, are those of the first and
/// then those of the second.
pub proof fn law_queries_stand_on_lines(above: Seq<char>, below: Seq<char>)
    ensures
        queries_from(above + seq!['\n'] + below, 0) == queries_from(above, 0) + queries_from(
            below,
            0,
        ),
{
    lemma_queries_in_front(above, below, 0);
}

proof fn lemma_trim_around(front: Seq<char>, core: Seq<char>, back: Seq<char>)
    requires
        forall|i: int| 0 <= i < front.len() ==> white_space(#[trigger] front[i]),
        forall|i: int| 0 <= i < back.len() ==> white_space(#[trigger] back[i]),
        core.len() > 0,
        !white_space(core[0]),
        !white_space(core.last()),
    ensures
        trim(front + core + back) == core,
    decreases front.len() + back.len(),
{
    let s = front + core + back;
    if front.len() > 0 {
        assert(s[0] == front[0]);
        assert(s.skip(1) == front.skip(1) + core + back);
        lemma_trim_around(front.skip(1), core, back);
    } else if back.len() > 0 {
        let less = back.drop_last();
        assert(s[0] == core[0]);
        assert(s.last() == back[back.len() - 1]);
        assert(s.drop_last() == front + core + less);
        assert((front + core + less)[0] == core[0]);
        lemma_trim_around(front, core, less);
        assert(trim_start(s) == s);
        assert(trim_start(s.drop_last()) == s.drop_last());
    } else {
        assert(s == core);
    }
}

proof fn lemma_no_line_feed(s: Seq<char>, from: int)
    requires
        0 <= from <= s.len(),
        forall|i: int| 0 <= i < s.len() ==> #[trigger] s[i] != '\n',
    ensures
        line_end(s, from) == s.len(),
    decreases s.len() - from,
{
    if from < s.len() {
        lemma_no_line_feed(s, from + 1);
    }
}

/// What stands on a line is a query, without the white space around it and with nothing else
/// changed or left out.
pub proof fn law_line_is_a_query(front: Seq<char>, core: Seq<char>, back: Seq<char>)
    requires
        forall|i: int|
            0 <= i < front.len() ==> (#[trigger] front[i]) == ' ' || front[i] == '\t' || front[i]
                == '\r' || front[i] == '\u{00A0}' || front[i] == '\u{3000}',
        forall|i: int|
            0 <= i < back.len() ==> (#[trigger] back[i]) == ' ' || back[i] == '\t' || back[i]
                == '\r' || back[i] == '\u{00A0}' || back[i] == '\u{3000}',
        core.len() > 0,
        forall|i: int| 0 <= i < core.len() ==> #[trigger] core[i] != '\n',
        forall|k: int|
            k == 0 || k == core.len() - 1 ==> !('\u{0009}' <= (#[trigger] core[k]) <= '\u{000D}')
                && core[k] != ' ' && core[k] != '\u{0085}' && core[k] != '\u{00A0}' && core[k]
                != '\u{1680}' && !('\u{2000}' <= core[k] <= '\u{200A}') && core[k] != '\u{2028}'
                && core[k] != '\u{2029}' && core[k] != '\u{202F}' && core[k] != '\u{205F}'
                && core[k] != '\u{3000}',
    ensures
        queries_from(front + core + back, 0) == seq![core],
{
    let s = front + core + back;
    assert forall|i: int| 0 <= i < s.len() implies #[trigger] s[i] != '\n' by {
        if i < front.len() {
            assert(s[i] == front[i]);
        } else if i < front.len() + core.len() {
            assert(s[i] == core[i - front.len()]);
        } else {
            assert(s[i] == back[i - front.len() - core.len()]);
        }
    }
    lemma_no_line_feed(s, 0);
    assert(!white_space(core[0]));
    assert(!white_space(core[core.len() - 1]));
    lemma_trim_around(front, core, back);
    assert(line_between(s, 0, s.len() as int) == s);
    assert(queries_from(s, s.len() as int + 1) == Seq::<Seq<char>>::empty());
    assert(queries_from(s, 0) == seq![core]);
}

proof fn lemma_trim_blank(s: Seq<char>)
    requires
        forall|i: int| 0 <= i < s.len() ==> white_space(#[trigger] s[i]),
    ensures
        trim(s).len() == 0,
    decreases s.len(),
{
    if s.len() > 0 {
        assert(white_space(s[0]));
        lemma_trim_blank(s.skip(1));
    }
}

/// A line with nothing but white space is no query.
pub proof fn law_blank_line_is_no_query(s: Seq<char>)
    requires
        forall|i: int|
            0 <= i < s.len() ==> (#[trigger] s[i]) == ' ' || s[i] == '\t' || s[i] == '\r' || s[i]
                == '\u{00A0}' || s[i] == '\u{3000}',
    ensures
        queries_from(s, 0).len() == 0,
{
    if s.len() > 0 {
        lemma_no_line_feed(s, 0);
        lemma_trim_blank(s);
        assert(line_between(s, 0, s.len() as int) == s);
        assert(queries_from(s, s.len() as int + 1) == Seq::<Seq<char>>::empty());
    }
}

/// What is selected are the characters between the two places; what is pasted stands between what
/// was in front of the first and what was behind the second. Places behind the end of the text
/// stand for its end.
pub proof fn law_selection_lies_between_its_places(
    text: Seq<char>,
    start: int,
    end: int,
    new: Seq<char>,
)
    requires
        0 <= start,
        0 <= end,
    ensures
        ({
            let n = text.len() as int;
            let a = if start < n {
                start
            } else {
                n
            };
            let b = if end < n {
                end
            } else {
                n
            };
            &&& start <= end ==> selection(text, start, end) == text.subrange(a, b)
            &&& replaced(text, start, end, new) == text.subrange(0, a) + new + text.subrange(b, n)
        }),
{
    let n = text.len() as int;
    let a = if start < n {
        start
    } else {
        n
    };
    let b = if end < n {
        end
    } else {
        n
    };
    if start <= end {
        assert(selection(text, start, end) == text.subrange(a, b));
    }
    assert(at_most(text, start) == text.subrange(0, a));
    assert(behind(text, end) == text.subrange(b, n));
}

} // verus!
