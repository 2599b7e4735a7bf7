//! The search engine.
use compact_str::CompactString;
use vstd::prelude::*;

use crate::bridge::{compact_chars, in_parallel};
use crate::highlight::{
    highlighted, law_parts_make_the_text, lemma_ascending_extremes, resolve_highlight,
};
use crate::models::{found_all, Found, QueryMatch, TextCandidate};
use crate::normalize::{
    law_mapping_follows_text, law_part_stands_in_whole, law_stretch_comes_from_its_origins,
    normalized_chars, normalized_origins,
};
use crate::score::{fuzzy_score, NINETY_FIVE_BITS};
use crate::single::Single;
use crate::text::{chars_of, same_chars, text_between};
use crate::window::{best_window, lemma_window_in_text};

verus! {

/// The encoding of 100, the score of a match with the very text of the query.
pub const EXACT_BITS: u32 = 0x42C8_0000;

/// The encoding of 98, the score of a match with the normalized text of the query.
pub const NORMALIZED_BITS: u32 = 0x42C4_0000;

/// The encoding of 50, the lowest score of a fuzzy match.
pub const FUZZY_MIN_BITS: u32 = 0x4248_0000;

/// Search engine executing multi-layered fuzzy matching and token-agnostic alignment.
pub struct StructuralSearchEngine {
    pub candidates: Vec<TextCandidate>,
}

/// `q` stands in `c` at index `at`.
pub open spec fn occurs_at(q: Seq<char>, c: Seq<char>, at: int) -> bool {
    0 <= at && at + q.len() <= c.len() && c.subrange(at, at + q.len()) == q
}

/// `q` stands somewhere in `c`.
pub open spec fn stands_in(q: Seq<char>, c: Seq<char>) -> bool {
    exists|at: int| occurs_at(q, c, at)
}

/// The places where `q` stands in `c`, from index `from` on: each the first one that does not
/// overlap the one before.
pub open spec fn occurrences(q: Seq<char>, c: Seq<char>, from: int) -> Seq<int>
    decreases c.len() - from,
{
    if q.len() == 0 || from < 0 || from + q.len() > c.len() {
        Seq::empty()
    } else if occurs_at(q, c, from) {
        seq![from] + occurrences(q, c, from + q.len())
    } else {
        occurrences(q, c, from + 1)
    }
}

/// A matched stretch of a normalized text: its first and its last character, and its score.
pub struct Hit {
    pub start: int,
    pub end: int,
    pub score: Single,
}

/// The stretches share a character.
pub open spec fn overlap(start: int, end: int, hit: Hit) -> bool {
    start <= hit.end && end >= hit.start
}

/// One of the hits shares a character with the stretch.
pub open spec fn overlaps_any(start: int, end: int, hits: Seq<Hit>) -> bool {
    exists|i: int| 0 <= i < hits.len() && overlap(start, end, #[trigger] hits[i])
}

/// The hits in `c`, from index `from` on, of the sliding window that looks for what resembles
/// `q`. Windows that overlap one of `taken`, or a hit before, are passed over, and so are windows
/// with a score below 50.
pub open spec fn fuzzy_hits(q: Seq<char>, c: Seq<char>, taken: Seq<Hit>, from: int) -> Seq<Hit>
    decreases c.len() - from,
{
    if from < 0 || from >= c.len() {
        Seq::empty()
    } else {
        proof {
            lemma_window_in_text(q, c, from);
        }
        match best_window(q, c, from) {
            None => Seq::empty(),
            Some((s, e)) => {
                let score = fuzzy_score(q, c.subrange(s, e + 1));
                if overlaps_any(s, e, taken) || score.bits < FUZZY_MIN_BITS {
                    fuzzy_hits(q, c, taken, e + 1)
                } else {
                    let hit = Hit { start: s, end: e, score };
                    seq![hit] + fuzzy_hits(q, c, taken.push(hit), e + 1)
                }
            },
        }
    }
}

/// The original indices of the normalized characters from `start` to `end`, as far as the mapping
/// reaches.
pub open spec fn original_indices(mapping: Seq<usize>, start: int, end: int) -> Seq<u32> {
    let stop = if end < mapping.len() {
        end + 1
    } else {
        mapping.len() as int
    };
    Seq::new(
        if start < stop {
            (stop - start) as nat
        } else {
            0
        },
        |i: int| mapping[start + i] as u32,
    )
}

/// The score of an exact hit: 100 where the highlighted text is the very query, else 98.
pub open spec fn exact_score(
    query: Seq<char>,
    cand: TextCandidate,
    start: int,
    end: int,
) -> Single {
    let indices = original_indices(cand.mapping@, start, end);
    if highlighted(cand.text@, indices).1 == query {
        Single { bits: EXACT_BITS }
    } else {
        Single { bits: NORMALIZED_BITS }
    }
}

/// The hit of the query `query` with the normalized text `q` at `at`.
pub open spec fn exact_hit(query: Seq<char>, q: Seq<char>, cand: TextCandidate, at: int) -> Hit {
    let end = at + q.len() - 1;
    Hit { start: at, end, score: exact_score(query, cand, at, end) }
}

/// All exact hits in a candidate.
pub open spec fn exact_hits(query: Seq<char>, q: Seq<char>, cand: TextCandidate) -> Seq<Hit> {
    occurrences(q, cand.normalized_text@, 0).map_values(|at: int| exact_hit(query, q, cand, at))
}

/// All hits in a candidate: the exact ones, then the fuzzy ones that do not overlap them.
pub open spec fn candidate_hits(query: Seq<char>, q: Seq<char>, cand: TextCandidate) -> Seq<Hit> {
    let exact = exact_hits(query, q, cand);
    exact + fuzzy_hits(q, cand.normalized_text@, exact, 0)
}

/// What is reported of a hit.
pub open spec fn report(query: Seq<char>, cand: TextCandidate, hit: Hit) -> Found {
    let indices = original_indices(cand.mapping@, hit.start, hit.end);
    let parts = highlighted(cand.text@, indices);
    Found {
        query,
        matches: true,
        score: hit.score,
        prefix: parts.0,
        match_text: parts.1,
        suffix: parts.2,
        indices,
        location: cand.location@,
    }
}

/// What is reported of all hits in a candidate.
pub open spec fn candidate_reports(query: Seq<char>, q: Seq<char>, cand: TextCandidate) -> Seq<
    Found,
> {
    candidate_hits(query, q, cand).map_values(|hit: Hit| report(query, cand, hit))
}

/// What is reported of a query: the reports of each candidate in turn. A query that normalizes to
/// nothing matches nothing.
pub open spec fn query_reports(query: Seq<char>, cands: Seq<TextCandidate>) -> Seq<Found> {
    let q = normalized_chars(query);
    if q.len() == 0 {
        Seq::empty()
    } else {
        Seq::new(cands.len(), |i: int| candidate_reports(query, q, cands[i])).flatten()
    }
}

/// What is reported of all queries: the reports of each query in turn.
pub open spec fn search_reports(queries: Seq<CompactString>, cands: Seq<TextCandidate>) -> Seq<
    Found,
> {
    Seq::new(queries.len(), |i: int| query_reports(compact_chars(queries[i]), cands)).flatten()
}

/// The score tells the match: 100 where the highlighted text is the very query, 98 where only the
/// normalized text is, and from 50 to 95 for what resembles the query.
pub open spec fn well_scored(f: Found) -> bool {
    ||| f.score.bits == EXACT_BITS && f.match_text == f.query
    ||| f.score.bits == NORMALIZED_BITS && f.match_text != f.query
    ||| FUZZY_MIN_BITS <= f.score.bits <= NINETY_FIVE_BITS
}

/// The scores of all reports tell the matches.
pub open spec fn all_well_scored(reports: Seq<Found>) -> bool {
    forall|i: int| 0 <= i < reports.len() ==> well_scored(#[trigger] reports[i])
}

/// `q` stands in `c` at `at`.
fn stands_at(q: &[char], c: &[char], at: usize) -> (stands: bool)
    requires
        at + q@.len() <= c@.len(),
    ensures
        stands == occurs_at(q@, c@, at as int),
{
    let c_len = c.len();
    let mut i: usize = 0;
    while i < q.len()
        invariant
            i <= q@.len(),
            at + q@.len() <= c@.len(),
            c@.len() == c_len,
            forall|j: int| 0 <= j < i ==> c@[at + j] == q@[j],
        decreases q.len() - i,
    {
        if c[at + i] != q[i] {
            return false;
        }
        i = i + 1;
    }
    assert(c@.subrange(at as int, at + q@.len()) == q@);
    true
}

/// Collects the original indices of the normalized characters from `start` to `end`.
fn collect_indices(mapping: &[usize], start: usize, end: usize) -> (indices: Vec<u32>)
    requires
        start <= end,
    ensures
        indices@ == original_indices(mapping@, start as int, end as int),
{
    let stop: usize = if end < mapping.len() {
        end + 1
    } else {
        mapping.len()
    };
    let mut indices: Vec<u32> = Vec::new();
    let mut i: usize = start;
    while i < stop
        invariant
            start <= i,
            i <= stop || i == start,
            stop <= mapping@.len(),
            indices@.len() == i - start,
            forall|j: int| 0 <= j < indices@.len() ==> indices@[j] == mapping@[start + j] as u32,
        decreases stop - i,
    {
        indices.push(#[verifier::truncate] (mapping[i] as u32));
        i = i + 1;
    }
    indices
}

/// Makes the report of a hit whose score is known.
fn make_report(
    query: &CompactString,
    candidate: &TextCandidate,
    start: usize,
    end: usize,
    score: Single,
) -> (m: QueryMatch)
    requires
        start <= end,
    ensures
        m@ == report(
            compact_chars(*query),
            *candidate,
            (Hit { start: start as int, end: end as int, score }),
        ),
{
    let indices = collect_indices(&candidate.mapping, start, end);
    let (prefix, match_text, suffix) = resolve_highlight(&candidate.text, &indices);
    QueryMatch {
        query: query.clone(),
        matches: true,
        similarity_score: score,
        prefix,
        match_text,
        suffix,
        matched_indices: indices,
        location: candidate.location.clone(),
    }
}

/// Makes the report of an exact hit.
fn make_exact_report(
    query: &CompactString,
    candidate: &TextCandidate,
    start: usize,
    end: usize,
) -> (m: QueryMatch)
    requires
        start <= end,
    ensures
        m@ == report(
            compact_chars(*query),
            *candidate,
            (Hit {
                start: start as int,
                end: end as int,
                score: exact_score(compact_chars(*query), *candidate, start as int, end as int),
            }),
        ),
{
    let mut m = make_report(query, candidate, start, end, Single { bits: NORMALIZED_BITS });
    let same = same_chars(&chars_of(m.match_text.as_str()), &chars_of(query.as_str()));
    if same {
        m.similarity_score = Single { bits: EXACT_BITS };
    }
    m
}

/// The stretches of the hits found so far.
pub open spec fn regions_of(hits: Seq<Hit>, regions: Seq<(usize, usize)>) -> bool {
    &&& hits.len() == regions.len()
    &&& forall|i: int|
        0 <= i < hits.len() ==> (#[trigger] hits[i]).start == regions[i].0 && hits[i].end
            == regions[i].1
}

/// One of the regions shares a character with the stretch.
fn overlaps(start: usize, end: usize, regions: &[(usize, usize)], Ghost(hits): Ghost<Seq<Hit>>)
    -> (found: bool)
    requires
        regions_of(hits, regions@),
    ensures
        found == overlaps_any(start as int, end as int, hits),
{
    let mut i: usize = 0;
    while i < regions.len()
        invariant
            i <= regions@.len(),
            regions_of(hits, regions@),
            forall|j: int| 0 <= j < i ==> !overlap(start as int, end as int, #[trigger] hits[j]),
        decreases regions.len() - i,
    {
        let (s, e) = regions[i];
        if start <= e && end >= s {
            assert(overlap(start as int, end as int, hits[i as int]));
            return true;
        }
        i = i + 1;
    }
    false
}

/// Puts the lists one behind the other.
fn flatten(parts: Vec<Vec<QueryMatch>>, Ghost(reports): Ghost<Seq<Seq<Found>>>) -> (all: Vec<
    QueryMatch,
>)
    requires
        parts@.len() == reports.len(),
        forall|i: int| 0 <= i < reports.len() ==> found_all(#[trigger] parts@[i]@) == reports[i],
        forall|i: int|
            0 <= i < reports.len() ==> all_well_scored(found_all(#[trigger] parts@[i]@)),
    ensures
        found_all(all@) == reports.flatten(),
        all_well_scored(found_all(all@)),
{
    let mut parts = parts;
    let mut all: Vec<QueryMatch> = Vec::new();
    let ghost given = parts@;
    let mut i: usize = 0;
    while i < parts.len()
        invariant
            i <= parts@.len(),
            parts@.len() == reports.len(),
            given.len() == reports.len(),
            forall|j: int| 0 <= j < reports.len() ==> found_all(#[trigger] given[j]@) == reports[j],
            forall|j: int| i <= j < reports.len() ==> #[trigger] parts@[j] == given[j],
            found_all(all@) == reports.take(i as int).flatten(),
            forall|j: int|
                0 <= j < reports.len() ==> all_well_scored(found_all(#[trigger] given[j]@)),
            all_well_scored(found_all(all@)),
        decreases parts.len() - i,
    {
        let ghost before = all@;
        all.append(&mut parts[i]);
        proof {
            assert(found_all(all@) == found_all(before) + found_all(given[i as int]@));
            assert(reports.take(i + 1).drop_last() == reports.take(i as int));
            reports.take(i + 1).lemma_flatten_and_flatten_alt_are_equivalent();
            reports.take(i as int).lemma_flatten_and_flatten_alt_are_equivalent();
        }
        i = i + 1;
    }
    assert(reports.take(i as int) == reports);
    all
}

impl StructuralSearchEngine {
    /// Creates a new search engine instance with a corpus of text candidates.
    pub fn new(candidates: Vec<TextCandidate>) -> (engine: Self)
        ensures
            engine.candidates == candidates,
    {
        StructuralSearchEngine { candidates }
    }

    /// Searches one candidate for a query whose normalized text is given. First all exact matches
    /// of the normalized text are extracted, then a sliding window catches what resembles the
    /// query in the rest of the text.
    pub fn search_candidate(
        query: &CompactString,
        query_norm: &str,
        candidate: &TextCandidate,
    ) -> (matches: Vec<QueryMatch>)
        requires
            query_norm@.len() > 0,
        ensures
            found_all(matches@) == candidate_reports(
                compact_chars(*query),
                query_norm@,
                *candidate,
            ),
            all_well_scored(found_all(matches@)),
            forall|i: int|
                occurrences(query_norm@, candidate.normalized_text@, 0).len() <= i < matches@.len()
                    ==> (#[trigger] matches@[i]).similarity_score.bits <= NINETY_FIVE_BITS,
    {
        let mut matches: Vec<QueryMatch> = Vec::new();
        let q_chars = chars_of(query_norm);
        let c_chars = chars_of(&candidate.normalized_text);
        let q_len = q_chars.len();
        let c_len = c_chars.len();
        let mut regions: Vec<(usize, usize)> = Vec::new();
        let ghost query_text = compact_chars(*query);
        let ghost q = query_norm@;
        let ghost c = candidate.normalized_text@;
        let ghost all = exact_hits(query_text, q, *candidate);
        let ghost mut hits = Seq::<Hit>::empty();
        let mut at: usize = 0;
        let ghost mut places = Seq::<int>::empty();
        while at <= c_len && q_len <= c_len - at
            invariant
                c_len == c_chars@.len(),
                q_len == q_chars@.len(),
                q_len > 0,
                q == q_chars@,
                c == c_chars@,
                c == candidate.normalized_text@,
                query_text == compact_chars(*query),
                occurrences(q, c, 0) == places + occurrences(q, c, at as int),
                hits == places.map_values(|at: int| exact_hit(query_text, q, *candidate, at)),
                regions_of(hits, regions@),
                found_all(matches@) == hits.map_values(
                    |hit: Hit| report(query_text, *candidate, hit),
                ),
                forall|i: int|
                    0 <= i < hits.len() ==> well_scored(
                        report(query_text, *candidate, #[trigger] hits[i]),
                    ),
            decreases c_len - at,
        {
            if stands_at(&q_chars, &c_chars, at) {
                let end = at + q_len - 1;
                let ghost before = matches@;
                matches.push(make_exact_report(query, candidate, at, end));
                regions.push((at, end));
                proof {
                    let hit = exact_hit(query_text, q, *candidate, at as int);
                    places = places.push(at as int);
                    hits = hits.push(hit);
                    assert(found_all(matches@) == found_all(before).push(
                        report(query_text, *candidate, hit),
                    ));
                }
                at = at + q_len;
            } else {
                at = at + 1;
            }
        }
        let ghost total = all + fuzzy_hits(q, c, all, 0);
        let mut search_start: usize = 0;
        let mut more = true;
        while more && search_start < c_len
            invariant
                c_len == c_chars@.len(),
                q.len() > 0,
                q == query_norm@,
                c == c_chars@,
                c == candidate.normalized_text@,
                query_text == compact_chars(*query),
                search_start <= c_len,
                more ==> total == hits + fuzzy_hits(q, c, hits, search_start as int),
                !more ==> total == hits,
                regions_of(hits, regions@),
                found_all(matches@) == hits.map_values(
                    |hit: Hit| report(query_text, *candidate, hit),
                ),
                forall|i: int|
                    0 <= i < hits.len() ==> well_scored(
                        report(query_text, *candidate, #[trigger] hits[i]),
                    ),
                all.len() <= hits.len(),
                forall|i: int|
                    all.len() <= i < hits.len() ==> (#[trigger] hits[i]).score.bits
                        <= NINETY_FIVE_BITS,
            decreases c_len - search_start + if more {
                    1int
                } else {
                    0
                },
        {
            match StructuralSearchEngine::find_best_fuzzy_window_in_range(
                query_norm,
                &c_chars,
                search_start,
            ) {
                None => {
                    more = false;
                },
                Some((start_norm, end_norm)) => {
                    if !overlaps(start_norm, end_norm, &regions, Ghost(hits)) {
                        let window = text_between(&c_chars, start_norm, end_norm + 1);
                        let score = StructuralSearchEngine::compute_fuzzy_score(
                            query_norm,
                            &window,
                        );
                        if score.bits >= FUZZY_MIN_BITS {
                            let ghost before = matches@;
                            let ghost hit = Hit {
                                start: start_norm as int,
                                end: end_norm as int,
                                score,
                            };
                            matches.push(
                                make_report(query, candidate, start_norm, end_norm, score),
                            );
                            regions.push((start_norm, end_norm));
                            proof {
                                hits = hits.push(hit);
                                assert(found_all(matches@) == found_all(before).push(
                                    report(query_text, *candidate, hit),
                                ));
                            }
                        }
                    }
                    search_start = end_norm + 1;
                },
            }
        }
        assert forall|i: int| all.len() <= i < matches@.len() implies (
        #[trigger] matches@[i]).similarity_score.bits <= NINETY_FIVE_BITS by {
            assert(found_all(matches@)[i] == matches@[i]@);
            assert(hits[i].score.bits <= NINETY_FIVE_BITS);
        }
        matches
    }

    /// Executes search matching for a single query across all candidates, which are searched in
    /// parallel.
    pub fn search_single_query(&self, query: &CompactString) -> (matches: Vec<QueryMatch>)
        ensures
            found_all(matches@) == query_reports(compact_chars(*query), self.candidates@),
            all_well_scored(found_all(matches@)),
    {
        let (query_norm, _) = StructuralSearchEngine::normalize_text_with_mapping(query.as_str());
        if query_norm.as_str().is_empty() {
            let none: Vec<QueryMatch> = Vec::new();
            return none;
        }
        let search_one = |candidate: &TextCandidate| -> (found: Vec<QueryMatch>)
            ensures
                found_all(found@) == candidate_reports(
                    compact_chars(*query),
                    query_norm@,
                    *candidate,
                ),
                all_well_scored(found_all(found@)),
            { StructuralSearchEngine::search_candidate(query, &query_norm, candidate) };
        let parts = in_parallel(&self.candidates, search_one);
        let ghost reports = Seq::new(
            self.candidates@.len(),
            |i: int| candidate_reports(compact_chars(*query), query_norm@, self.candidates@[i]),
        );
        flatten(parts, Ghost(reports))
    }

    /// Searches the candidate corpus in parallel for each of the queries. Returns matching records
    /// containing location information and context segments, in the order of the queries.
    pub fn search(&self, queries: &[CompactString]) -> (matches: Vec<QueryMatch>)
        ensures
            found_all(matches@) == search_reports(queries@, self.candidates@),
            all_well_scored(found_all(matches@)),
    {
        let search_one = |query: &CompactString| -> (found: Vec<QueryMatch>)
            ensures
                found_all(found@) == query_reports(compact_chars(*query), self.candidates@),
                all_well_scored(found_all(found@)),
            { self.search_single_query(query) };
        let parts = in_parallel(queries, search_one);
        let ghost reports = Seq::new(
            queries@.len(),
            |i: int| query_reports(compact_chars(queries@[i]), self.candidates@),
        );
        flatten(parts, Ghost(reports))
    }
}

proof fn lemma_occurrences(q: Seq<char>, c: Seq<char>, from: int)
    requires
        q.len() > 0,
        from >= 0,
    ensures
        forall|i: int|
            0 <= i < occurrences(q, c, from).len() ==> occurs_at(
                q,
                c,
                #[trigger] occurrences(q, c, from)[i],
            ) && occurrences(q, c, from)[i] >= from,
        forall|i: int, j: int|
            0 <= i < j < occurrences(q, c, from).len() ==> #[trigger] occurrences(q, c, from)[i]
                + q.len() <= #[trigger] occurrences(q, c, from)[j],
    decreases c.len() - from,
{
    if from + q.len() <= c.len() {
        if occurs_at(q, c, from) {
            lemma_occurrences(q, c, from + q.len());
            assert(occurrences(q, c, from).skip(1) == occurrences(q, c, from + q.len()));
        } else {
            lemma_occurrences(q, c, from + 1);
            assert(occurrences(q, c, from) == occurrences(q, c, from + 1));
        }
    }
}

/// Some listed place covers the place `at`.
pub open spec fn covered(places: Seq<int>, q_len: nat, at: int) -> bool {
    exists|i: int| 0 <= i < places.len() && #[trigger] places[i] <= at < places[i] + q_len
}

proof fn lemma_covered(q: Seq<char>, c: Seq<char>, from: int, at: int)
    requires
        q.len() > 0,
        0 <= from <= at,
        occurs_at(q, c, at),
    ensures
        covered(occurrences(q, c, from), q.len(), at),
    decreases c.len() - from,
{
    let places = occurrences(q, c, from);
    if occurs_at(q, c, from) {
        assert(places[0] == from);
        if at >= from + q.len() {
            let rest = occurrences(q, c, from + q.len());
            lemma_covered(q, c, from + q.len(), at);
            let i = choose|i: int|
                0 <= i < rest.len() && #[trigger] rest[i] <= at < rest[i] + q.len();
            assert(places[i + 1] == rest[i]);
        }
    } else {
        lemma_covered(q, c, from + 1, at);
    }
}

proof fn lemma_fuzzy_hits(q: Seq<char>, c: Seq<char>, taken: Seq<Hit>, from: int)
    requires
        from >= 0,
    ensures
        forall|i: int|
            0 <= i < fuzzy_hits(q, c, taken, from).len() ==> {
                let hit = #[trigger] fuzzy_hits(q, c, taken, from)[i];
                &&& from <= hit.start <= hit.end < c.len()
                &&& !overlaps_any(hit.start, hit.end, taken)
                &&& hit.score == fuzzy_score(q, c.subrange(hit.start, hit.end + 1))
                &&& hit.score.bits >= FUZZY_MIN_BITS
            },
        apart(fuzzy_hits(q, c, taken, from)),
    decreases c.len() - from,
{
    if from < c.len() {
        lemma_window_in_text(q, c, from);
        if let Some((s, e)) = best_window(q, c, from) {
            let score = fuzzy_score(q, c.subrange(s, e + 1));
            let hits = fuzzy_hits(q, c, taken, from);
            if overlaps_any(s, e, taken) || score.bits < FUZZY_MIN_BITS {
                lemma_fuzzy_hits(q, c, taken, e + 1);
            } else {
                let hit = Hit { start: s, end: e, score };
                lemma_fuzzy_hits(q, c, taken.push(hit), e + 1);
                assert forall|i: int| 0 <= i < hits.len() implies {
                    let hit = #[trigger] hits[i];
                    &&& from <= hit.start <= hit.end < c.len()
                    &&& !overlaps_any(hit.start, hit.end, taken)
                    &&& hit.score == fuzzy_score(q, c.subrange(hit.start, hit.end + 1))
                    &&& hit.score.bits >= FUZZY_MIN_BITS
                } by {
                    if i > 0 {
                        assert forall|j: int| 0 <= j < taken.len() implies !overlap(
                            hits[i].start,
                            hits[i].end,
                            #[trigger] taken[j],
                        ) by {
                            assert(taken.push(hit)[j] == taken[j]);
                        }
                    }
                }
            }
        }
    }
}

/// No two hits share a character.
pub open spec fn apart(hits: Seq<Hit>) -> bool {
    forall|i: int, j: int|
        0 <= i < j < hits.len() ==> !overlap(
            (#[trigger] hits[i]).start,
            hits[i].end,
            #[trigger] hits[j],
        )
}

/// The hits in a candidate lie in its normalized text, and no character of that text belongs to
/// two of them: what was matched exactly is not matched again by resemblance.
pub proof fn law_hits_are_apart(query: Seq<char>, q: Seq<char>, cand: TextCandidate)
    requires
        q.len() > 0,
    ensures
        apart(candidate_hits(query, q, cand)),
        forall|i: int|
            0 <= i < candidate_hits(query, q, cand).len() ==> 0 <= (#[trigger] candidate_hits(
                query,
                q,
                cand,
            )[i]).start <= candidate_hits(query, q, cand)[i].end < cand.normalized_text@.len(),
{
    let c = cand.normalized_text@;
    let exact = exact_hits(query, q, cand);
    lemma_occurrences(q, c, 0);
    lemma_fuzzy_hits(q, c, exact, 0);
}

/// Wherever the normalized query stands in the normalized text of a candidate, that place belongs
/// to a reported match, which stands for the whole query and scores 98 or 100.
pub proof fn law_every_occurrence_is_reported(
    query: Seq<char>,
    q: Seq<char>,
    cand: TextCandidate,
    at: int,
)
    requires
        q.len() > 0,
        occurs_at(q, cand.normalized_text@, at),
    ensures
        exists|i: int|
            {
                &&& 0 <= i < candidate_hits(query, q, cand).len()
                &&& (#[trigger] candidate_hits(query, q, cand)[i]).start <= at
                &&& at <= candidate_hits(query, q, cand)[i].end
                &&& occurs_at(q, cand.normalized_text@, candidate_hits(query, q, cand)[i].start)
                &&& candidate_hits(query, q, cand)[i].end == candidate_hits(query, q, cand)[i].start
                    + q.len() - 1
                &&& candidate_hits(query, q, cand)[i].score.bits == EXACT_BITS
                    || candidate_hits(query, q, cand)[i].score.bits == NORMALIZED_BITS
            },
        candidate_reports(query, q, cand).len() > 0,
{
    let c = cand.normalized_text@;
    let places = occurrences(q, c, 0);
    lemma_occurrences(q, c, 0);
    lemma_covered(q, c, 0, at);
    let i = choose|i: int|
        0 <= i < places.len() && #[trigger] places[i] <= at < places[i] + q.len();
    assert(candidate_hits(query, q, cand)[i] == exact_hits(query, q, cand)[i]);
}

/// Text that stands verbatim in a candidate is found when it is searched for, provided that
/// normalization leaves anything of it.
pub proof fn law_verbatim_text_is_found(
    cand: TextCandidate,
    before: Seq<char>,
    query: Seq<char>,
    after: Seq<char>,
)
    requires
        cand.text@ == before + query + after,
        cand.normalized_text@ == normalized_chars(cand.text@),
        normalized_chars(query).len() > 0,
    ensures
        ({
            let q = normalized_chars(query);
            let reports = candidate_reports(query, q, cand);
            &&& occurrences(q, cand.normalized_text@, 0).len() > 0
            &&& reports.len() > 0
            &&& reports[0].score.bits == EXACT_BITS || reports[0].score.bits == NORMALIZED_BITS
        }),
{
    let q = normalized_chars(query);
    law_part_stands_in_whole(before, query, after);
    let at = choose|at: int| occurs_at(q, cand.normalized_text@, at);
    lemma_covered(q, cand.normalized_text@, 0, at);
    law_every_occurrence_is_reported(query, q, cand, at);
    law_scores_tell_the_match(query, q, cand, 0);
}

/// A match scores 100 only where the highlighted text is, letter for letter, the query; scores of
/// the other exact matches are 98, and those of matches by resemblance are at least 50 and measure
/// the resemblance of the query and the matched text.
pub proof fn law_scores_tell_the_match(query: Seq<char>, q: Seq<char>, cand: TextCandidate, i: int)
    requires
        q.len() > 0,
        0 <= i < candidate_hits(query, q, cand).len(),
    ensures
        ({
            let hit = candidate_hits(query, q, cand)[i];
            let found = candidate_reports(query, q, cand)[i];
            let c = cand.normalized_text@;
            if i < occurrences(q, c, 0).len() {
                &&& c.subrange(hit.start, hit.end + 1) == q
                &&& found.score.bits == if found.match_text == query {
                    EXACT_BITS
                } else {
                    NORMALIZED_BITS
                }
            } else {
                &&& found.score == fuzzy_score(q, c.subrange(hit.start, hit.end + 1))
                &&& found.score.bits >= FUZZY_MIN_BITS
            }
        }),
{
    let c = cand.normalized_text@;
    let exact = exact_hits(query, q, cand);
    lemma_occurrences(q, c, 0);
    lemma_fuzzy_hits(q, c, exact, 0);
}

/// Every report quotes the candidate: its three parts, put together again, are the candidate's
/// text. It names the query that was asked and the candidate's location.
pub proof fn law_reports_quote_the_text(query: Seq<char>, q: Seq<char>, cand: TextCandidate, i: int)
    requires
        0 <= i < candidate_reports(query, q, cand).len(),
    ensures
        ({
            let found = candidate_reports(query, q, cand)[i];
            &&& found.prefix + found.match_text + found.suffix == cand.text@
            &&& found.query == query
            &&& found.location == cand.location@
            &&& found.matches
        }),
{
    law_parts_make_the_text(cand.text@, candidate_reports(query, q, cand)[i].indices);
}

/// The highlighted text is what was matched: its normalized form has the matched stretch of
/// normalized text in it. (A stretch that begins or ends with a separator is left out: the
/// separator need not be made again.)
pub proof fn law_highlight_holds_the_match(
    query: Seq<char>,
    q: Seq<char>,
    cand: TextCandidate,
    i: int,
)
    requires
        q.len() > 0,
        cand.text@.len() <= u32::MAX,
        cand.normalized_text@ == normalized_chars(cand.text@),
        cand.mapping@ == normalized_origins(cand.text@),
        0 <= i < candidate_hits(query, q, cand).len(),
        cand.normalized_text@[candidate_hits(query, q, cand)[i].start] != ' ',
        cand.normalized_text@[candidate_hits(query, q, cand)[i].end] != ' ',
    ensures
        ({
            let hit = candidate_hits(query, q, cand)[i];
            let stretch = cand.normalized_text@.subrange(hit.start, hit.end + 1);
            let match_text = candidate_reports(query, q, cand)[i].match_text;
            stands_in(stretch, normalized_chars(match_text))
        }),
{
    let text = cand.text@;
    let hit = candidate_hits(query, q, cand)[i];
    let indices = candidate_reports(query, q, cand)[i].indices;
    law_hits_are_apart(query, q, cand);
    law_stretch_comes_from_its_origins(text, hit.start, hit.end);
    law_mapping_follows_text(text);
    lemma_ascending_extremes(indices);
}

/// The reports of two forms of a query: the same stretch of the same text. They score the same, or
/// both have an exact score, 98 or 100.
pub open spec fn alike(f: Found, g: Found) -> bool {
    &&& f.indices == g.indices
    &&& f.prefix == g.prefix
    &&& f.match_text == g.match_text
    &&& f.suffix == g.suffix
    &&& f.location == g.location
    &&& f.matches == g.matches
    &&& f.score == g.score || (f.score.bits >= NORMALIZED_BITS && g.score.bits >= NORMALIZED_BITS)
}

/// The reports of two forms of a query, one by one.
pub open spec fn all_alike(of_a: Seq<Found>, of_b: Seq<Found>) -> bool {
    &&& of_a.len() == of_b.len()
    &&& forall|i: int| 0 <= i < of_a.len() ==> alike(#[trigger] of_a[i], of_b[i])
}

proof fn lemma_candidate_alike(a: Seq<char>, b: Seq<char>, q: Seq<char>, cand: TextCandidate)
    ensures
        all_alike(candidate_reports(a, q, cand), candidate_reports(b, q, cand)),
{
    let c = cand.normalized_text@;
    let exact_a = exact_hits(a, q, cand);
    let exact_b = exact_hits(b, q, cand);
    assert forall|i: int| 0 <= i < exact_a.len() implies (#[trigger] exact_a[i]).start
        == exact_b[i].start && exact_a[i].end == exact_b[i].end by {}
    lemma_same_regions(q, c, exact_a, exact_b, 0);
}

proof fn lemma_flatten_alike(of_a: Seq<Seq<Found>>, of_b: Seq<Seq<Found>>)
    requires
        of_a.len() == of_b.len(),
        forall|k: int| 0 <= k < of_a.len() ==> all_alike(#[trigger] of_a[k], of_b[k]),
    ensures
        all_alike(of_a.flatten(), of_b.flatten()),
    decreases of_a.len(),
{
    if of_a.len() > 0 {
        assert forall|k: int| 0 <= k < of_a.drop_first().len() implies all_alike(
            #[trigger] of_a.drop_first()[k],
            of_b.drop_first()[k],
        ) by {
            assert(all_alike(of_a[k + 1], of_b[k + 1]));
        }
        lemma_flatten_alike(of_a.drop_first(), of_b.drop_first());
        assert(all_alike(of_a[0], of_b[0]));
    }
}

/// Queries that differ only in what normalization removes (case, diacritics, punctuation, spacing)
/// find the same stretches of text, and score them alike.
pub proof fn law_formatting_does_not_matter(
    a: Seq<char>,
    b: Seq<char>,
    cands: Seq<TextCandidate>,
)
    requires
        normalized_chars(a) == normalized_chars(b),
    ensures
        all_alike(query_reports(a, cands), query_reports(b, cands)),
{
    let q = normalized_chars(a);
    if q.len() > 0 {
        let of_a = Seq::new(cands.len(), |i: int| candidate_reports(a, q, cands[i]));
        let of_b = Seq::new(cands.len(), |i: int| candidate_reports(b, q, cands[i]));
        assert forall|k: int| 0 <= k < of_a.len() implies all_alike(
            #[trigger] of_a[k],
            of_b[k],
        ) by {
            lemma_candidate_alike(a, b, q, cands[k]);
        }
        lemma_flatten_alike(of_a, of_b);
    }
}

proof fn lemma_same_regions(q: Seq<char>, c: Seq<char>, a: Seq<Hit>, b: Seq<Hit>, from: int)
    requires
        from >= 0,
        a.len() == b.len(),
        forall|i: int|
            0 <= i < a.len() ==> (#[trigger] a[i]).start == b[i].start && a[i].end == b[i].end,
    ensures
        fuzzy_hits(q, c, a, from) == fuzzy_hits(q, c, b, from),
    decreases c.len() - from,
{
    if from < c.len() {
        lemma_window_in_text(q, c, from);
        if let Some((s, e)) = best_window(q, c, from) {
            let score = fuzzy_score(q, c.subrange(s, e + 1));
            if overlaps_any(s, e, b) {
                let i = choose|i: int| 0 <= i < b.len() && overlap(s, e, #[trigger] b[i]);
                assert(overlap(s, e, a[i]));
            }
            lemma_same_regions(q, c, a, b, e + 1);
            let hit = Hit { start: s, end: e, score };
            lemma_same_regions(q, c, a.push(hit), b.push(hit), e + 1);
        }
    }
}

/// Queries are searched for independently of each other, and reported in their order.
pub proof fn law_queries_are_searched_in_turn(
    first: Seq<CompactString>,
    second: Seq<CompactString>,
    cands: Seq<TextCandidate>,
)
    ensures
        search_reports(first + second, cands) == search_reports(first, cands) + search_reports(
            second,
            cands,
        ),
{
    let of = |queries: Seq<CompactString>|
        Seq::new(queries.len(), |i: int| query_reports(compact_chars(queries[i]), cands));
    assert(of(first + second) == of(first) + of(second));
    vstd::seq_lib::lemma_flatten_concat(of(first), of(second));
}

/// Candidates are searched independently of each other, and reported in their order.
pub proof fn law_candidates_are_searched_in_turn(
    query: Seq<char>,
    first: Seq<TextCandidate>,
    second: Seq<TextCandidate>,
)
    ensures
        query_reports(query, first + second) == query_reports(query, first) + query_reports(
            query,
            second,
        ),
{
    let q = normalized_chars(query);
    let of = |cands: Seq<TextCandidate>|
        Seq::new(cands.len(), |i: int| candidate_reports(query, q, cands[i]));
    assert(of(first + second) == of(first) + of(second));
    vstd::seq_lib::lemma_flatten_concat(of(first), of(second));
}

/// A query without letters and digits finds nothing.
pub proof fn law_blank_query_finds_nothing(query: Seq<char>, cands: Seq<TextCandidate>)
    requires
        normalized_chars(query).len() == 0,
    ensures
        query_reports(query, cands).len() == 0,
{
}

/// Wherever the normalized query stands in the normalized text of a candidate, letter for letter, a
/// match is reported that covers the place: it is marked with what the mapping says of the
/// characters of an occurrence, and scores 100 where the highlighted text is the query, else 98.
pub proof fn law_every_verbatim_place_is_marked(
    query: Seq<char>,
    q: Seq<char>,
    cand: TextCandidate,
    at: int,
)
    requires
        q.len() > 0,
        0 <= at,
        at + q.len() <= cand.normalized_text@.len(),
        cand.normalized_text@.subrange(at, at + q.len()) == q,
        cand.mapping@.len() == cand.normalized_text@.len(),
    ensures
        exists|i: int, p: int|
            {
                let found = #[trigger] candidate_reports(query, q, cand)[i];
                &&& 0 <= i < candidate_reports(query, q, cand).len()
                &&& 0 <= p <= at < p + q.len() <= cand.normalized_text@.len()
                &&& #[trigger] cand.normalized_text@.subrange(p, p + q.len()) == q
                &&& found.indices.len() == q.len()
                &&& forall|k: int|
                    0 <= k < q.len() ==> #[trigger] found.indices[k] == cand.mapping@[p + k] as u32
                &&& found.score.bits == if found.match_text == query {
                    0x42C8_0000u32
                } else {
                    0x42C4_0000
                }
            },
{
    let c = cand.normalized_text@;
    assert(occurs_at(q, c, at));
    let places = occurrences(q, c, 0);
    lemma_occurrences(q, c, 0);
    lemma_covered(q, c, 0, at);
    let i = choose|i: int|
        0 <= i < places.len() && #[trigger] places[i] <= at < places[i] + q.len();
    let p = places[i];
    assert(candidate_hits(query, q, cand)[i] == exact_hits(query, q, cand)[i]);
    assert(exact_hits(query, q, cand)[i] == exact_hit(query, q, cand, p));
    let found = candidate_reports(query, q, cand)[i];
    assert(found == report(query, cand, exact_hit(query, q, cand, p)));
    assert(c.subrange(p, p + q.len()) == q);
}

proof fn lemma_fuzzy_ascending(q: Seq<char>, c: Seq<char>, taken: Seq<Hit>, from: int)
    requires
        from >= 0,
    ensures
        forall|i: int|
            0 <= i < fuzzy_hits(q, c, taken, from).len() ==> (#[trigger] fuzzy_hits(
                q,
                c,
                taken,
                from,
            )[i]).start >= from,
        forall|i: int, j: int|
            0 <= i < j < fuzzy_hits(q, c, taken, from).len() ==> (#[trigger] fuzzy_hits(
                q,
                c,
                taken,
                from,
            )[i]).end < (#[trigger] fuzzy_hits(q, c, taken, from)[j]).start,
    decreases c.len() - from,
{
    if from < c.len() {
        lemma_window_in_text(q, c, from);
        if let Some((s, e)) = best_window(q, c, from) {
            let score = fuzzy_score(q, c.subrange(s, e + 1));
            if overlaps_any(s, e, taken) || score.bits < FUZZY_MIN_BITS {
                lemma_fuzzy_ascending(q, c, taken, e + 1);
                assert(fuzzy_hits(q, c, taken, from) == fuzzy_hits(q, c, taken, e + 1));
            } else {
                let hit = Hit { start: s, end: e, score };
                lemma_fuzzy_ascending(q, c, taken.push(hit), e + 1);
                let rest = fuzzy_hits(q, c, taken.push(hit), e + 1);
                let hits = fuzzy_hits(q, c, taken, from);
                assert(hits == seq![hit] + rest);
                assert(forall|i: int| 0 < i < hits.len() ==> #[trigger] hits[i] == rest[i - 1]);
            }
        }
    }
}

/// Every match stands for a stretch of the normalized text, and no character belongs to two of
/// them. The match is marked with what the mapping says of the stretch. First come the matches
/// whose stretch is the query, letter for letter, which score 100 or 98, then those that resemble
/// it, which score what they resemble it, from 50 on; either come in the order of the text.
pub proof fn law_matches_stand_for_stretches(query: Seq<char>, q: Seq<char>, cand: TextCandidate)
    requires
        q.len() > 0,
        cand.mapping@.len() == cand.normalized_text@.len(),
    ensures
        exists|places: Seq<(int, int)>, exact: int|
            {
                let c = cand.normalized_text@;
                let reports = candidate_reports(query, q, cand);
                &&& places.len() == reports.len()
                &&& 0 <= exact <= reports.len()
                &&& (#[trigger] places.take(exact)).len() == exact
                &&& forall|i: int|
                    0 <= i < reports.len() ==> {
                        let (s, e) = #[trigger] places[i];
                        let found = reports[i];
                        &&& 0 <= s <= e < c.len()
                        &&& found.indices.len() == e + 1 - s
                        &&& forall|k: int|
                            0 <= k <= e - s ==> #[trigger] found.indices[k] == cand.mapping@[s
                                + k] as u32
                        &&& i < exact ==> c.subrange(s, e + 1) == q && found.score.bits == if
                            found.match_text == query {
                            0x42C8_0000u32
                        } else {
                            0x42C4_0000
                        }
                        &&& i >= exact ==> found.score == fuzzy_score(q, c.subrange(s, e + 1))
                            && found.score.bits >= 0x4248_0000
                    }
                &&& forall|i: int, j: int|
                    0 <= i < j < reports.len() ==> {
                        let (s, e) = #[trigger] places[i];
                        let (s2, e2) = #[trigger] places[j];
                        &&& e < s2 || e2 < s
                        &&& j < exact || exact <= i ==> e < s2
                    }
            },
{
    let c = cand.normalized_text@;
    let hits = candidate_hits(query, q, cand);
    let reports = candidate_reports(query, q, cand);
    let places = hits.map_values(|hit: Hit| (hit.start, hit.end));
    let all = occurrences(q, c, 0);
    let exact = all.len() as int;
    law_hits_are_apart(query, q, cand);
    lemma_occurrences(q, c, 0);
    lemma_fuzzy_ascending(q, c, exact_hits(query, q, cand), 0);
    assert forall|i: int| 0 <= i < reports.len() implies {
        let (s, e) = #[trigger] places[i];
        let found = reports[i];
        &&& 0 <= s <= e < c.len()
        &&& found.indices.len() == e + 1 - s
        &&& forall|k: int|
            0 <= k <= e - s ==> #[trigger] found.indices[k] == cand.mapping@[s + k] as u32
        &&& i < exact ==> c.subrange(s, e + 1) == q && found.score.bits == if found.match_text
            == query {
            0x42C8_0000u32
        } else {
            0x42C4_0000
        }
        &&& i >= exact ==> found.score == fuzzy_score(q, c.subrange(s, e + 1)) && found.score.bits
            >= 0x4248_0000
    } by {
        law_scores_tell_the_match(query, q, cand, i);
        assert(reports[i] == report(query, cand, hits[i]));
        assert(hits[i].start <= hits[i].end);
    }
    assert forall|i: int, j: int| 0 <= i < j < reports.len() implies {
        let (s, e) = #[trigger] places[i];
        let (s2, e2) = #[trigger] places[j];
        &&& e < s2 || e2 < s
        &&& j < exact || exact <= i ==> e < s2
    } by {
        assert(!overlap(hits[i].start, hits[i].end, hits[j]));
        if j < exact {
            assert(hits[i] == exact_hit(query, q, cand, all[i]));
            assert(hits[j] == exact_hit(query, q, cand, all[j]));
            assert(all[i] + q.len() <= all[j]);
        }
        if exact <= i {
            let fuzzy = fuzzy_hits(q, c, exact_hits(query, q, cand), 0);
            assert(hits[i] == fuzzy[i - exact]);
            assert(hits[j] == fuzzy[j - exact]);
        }
    }
    assert(places.take(exact).len() == exact);
}

/// The windows that were looked at, one behind the other from `starts[0]` on, each with the best
/// window that was found there: it is too different from the query, or shares a character with one
/// of the stretches.
pub open spec fn looked_through(
    q: Seq<char>,
    c: Seq<char>,
    starts: Seq<int>,
    stretches: Seq<(int, int)>,
) -> bool {
    &&& starts.len() > 0
    &&& starts.last() >= c.len() || best_window(q, c, starts.last()) is None
    &&& forall|k: int|
        0 <= k < starts.len() - 1 ==> {
            let from = #[trigger] starts[k];
            &&& from < c.len()
            &&& best_window(q, c, from) matches Some((s, e)) && starts[k + 1] == e + 1 && (
            fuzzy_score(q, c.subrange(s, e + 1)).bits < 0x4248_0000 || exists|i: int|
                0 <= i < stretches.len() && {
                    let (s2, e2) = #[trigger] stretches[i];
                    s <= e2 && s2 <= e
                })
        }
}

proof fn lemma_looked_through(q: Seq<char>, c: Seq<char>, taken: Seq<Hit>, from: int) -> (starts:
    Seq<int>)
    requires
        from >= 0,
    ensures
        starts.len() > 0,
        starts[0] == from,
        looked_through(
            q,
            c,
            starts,
            (taken + fuzzy_hits(q, c, taken, from)).map_values(|h: Hit| (h.start, h.end)),
        ),
    decreases c.len() - from,
{
    let all = (taken + fuzzy_hits(q, c, taken, from)).map_values(|h: Hit| (h.start, h.end));
    if from >= c.len() {
        seq![from]
    } else {
        lemma_window_in_text(q, c, from);
        match best_window(q, c, from) {
            None => seq![from],
            Some((s, e)) => {
                let score = fuzzy_score(q, c.subrange(s, e + 1));
                let hit = Hit { start: s, end: e, score };
                let skipped = overlaps_any(s, e, taken) || score.bits < FUZZY_MIN_BITS;
                let next = if skipped {
                    taken
                } else {
                    taken.push(hit)
                };
                let rest = lemma_looked_through(q, c, next, e + 1);
                let more = fuzzy_hits(q, c, next, e + 1);
                if !skipped {
                    assert(taken.push(hit) + more == taken + (seq![hit] + more));
                }
                assert((next + more).map_values(|h: Hit| (h.start, h.end)) == all);
                let starts = seq![from] + rest;
                assert(starts[1] == rest[0]);
                if overlaps_any(s, e, taken) {
                    let i = choose|i: int|
                        0 <= i < taken.len() && overlap(s, e, #[trigger] taken[i]);
                    assert(all[i] == (taken[i].start, taken[i].end));
                } else if !skipped {
                    assert(all[taken.len() as int] == (s, e));
                }
                assert forall|k: int| 0 <= k < starts.len() - 1 implies {
                    let from = #[trigger] starts[k];
                    &&& from < c.len()
                    &&& best_window(q, c, from) matches Some((s, e)) && starts[k + 1] == e + 1 && (
                    fuzzy_score(q, c.subrange(s, e + 1)).bits < 0x4248_0000 || exists|i: int|
                        0 <= i < all.len() && {
                            let (s2, e2) = #[trigger] all[i];
                            s <= e2 && s2 <= e
                        })
                } by {
                    if k > 0 {
                        assert(starts[k] == rest[k - 1]);
                        assert(starts[k + 1] == rest[k]);
                    }
                }
                assert(starts.last() == rest.last());
                starts
            },
        }
    }
}

/// The whole text is looked through for what resembles the query: from its beginning on, the best
/// window is taken, and then the search goes on behind it, until nothing is left or nothing there
/// resembles the query. Each of these windows is a match, or shares a character with one, or scores
/// below 50.
pub proof fn law_whole_text_is_looked_through(query: Seq<char>, q: Seq<char>, cand: TextCandidate)
    requires
        q.len() > 0,
        cand.mapping@.len() == cand.normalized_text@.len(),
    ensures
        exists|starts: Seq<int>, places: Seq<(int, int)>|
            {
                let reports = candidate_reports(query, q, cand);
                &&& #[trigger] looked_through(q, cand.normalized_text@, starts, places)
                &&& starts[0] == 0
                &&& places.len() == reports.len()
                &&& forall|i: int|
                    0 <= i < reports.len() ==> {
                        let (s, e) = #[trigger] places[i];
                        let found = reports[i];
                        &&& 0 <= s <= e < cand.normalized_text@.len()
                        &&& found.indices.len() == e + 1 - s
                        &&& forall|k: int|
                            0 <= k <= e - s ==> #[trigger] found.indices[k] == cand.mapping@[s
                                + k] as u32
                    }
            },
{
    let c = cand.normalized_text@;
    let hits = candidate_hits(query, q, cand);
    let reports = candidate_reports(query, q, cand);
    let places = hits.map_values(|h: Hit| (h.start, h.end));
    let starts = lemma_looked_through(q, c, exact_hits(query, q, cand), 0);
    law_hits_are_apart(query, q, cand);
    assert forall|i: int| 0 <= i < reports.len() implies {
        let (s, e) = #[trigger] places[i];
        let found = reports[i];
        &&& 0 <= s <= e < c.len()
        &&& found.indices.len() == e + 1 - s
        &&& forall|k: int|
            0 <= k <= e - s ==> #[trigger] found.indices[k] == cand.mapping@[s + k] as u32
    } by {
        assert(reports[i] == report(query, cand, hits[i]));
        assert(hits[i].start <= hits[i].end);
    }
    assert(looked_through(q, c, starts, places));
}

/// All that is reported of a single candidate is reported of it, whatever the query; all that is
/// reported of a single query is reported of it.
pub proof fn law_nothing_is_dropped(
    query: CompactString,
    cand: TextCandidate,
    cands: Seq<TextCandidate>,
)
    ensures
        normalized_chars(compact_chars(query)).len() > 0 ==> query_reports(
            compact_chars(query),
            seq![cand],
        ) == candidate_reports(
            compact_chars(query),
            normalized_chars(compact_chars(query)),
            cand,
        ),
        search_reports(seq![query], cands) == query_reports(compact_chars(query), cands),
{
    let text = compact_chars(query);
    let q = normalized_chars(text);
    let one = Seq::new(1, |i: int| candidate_reports(text, q, seq![cand][i]));
    assert(one == seq![candidate_reports(text, q, cand)]);
    one.lemma_flatten_one_element();
    let alone = Seq::new(1, |i: int| query_reports(compact_chars(seq![query][i]), cands));
    assert(alone == seq![query_reports(text, cands)]);
    alone.lemma_flatten_one_element();
}

/// A match quotes the text of the candidate: what is highlighted reaches from the first to the last
/// of the characters that it is marked with, what stands before and behind is the rest of the text.
pub proof fn law_match_quotes_its_marks(query: Seq<char>, q: Seq<char>, cand: TextCandidate, i: int)
    requires
        q.len() > 0,
        0 <= i < candidate_reports(query, q, cand).len(),
        cand.text@.len() <= u32::MAX,
        cand.mapping@.len() == cand.normalized_text@.len(),
        forall|k: int|
            0 <= k < cand.mapping@.len() ==> #[trigger] cand.mapping@[k] < cand.text@.len(),
        forall|j: int, k: int|
            0 <= j <= k < cand.mapping@.len() ==> #[trigger] cand.mapping@[j]
                <= #[trigger] cand.mapping@[k],
    ensures
        ({
            let found = candidate_reports(query, q, cand)[i];
            let first = found.indices[0] as int;
            let last = found.indices[found.indices.len() - 1] as int;
            &&& found.indices.len() > 0
            &&& 0 <= first <= last < cand.text@.len()
            &&& found.prefix == cand.text@.subrange(0, first)
            &&& found.match_text == cand.text@.subrange(first, last + 1)
            &&& found.suffix == cand.text@.subrange(last + 1, cand.text@.len() as int)
        }),
{
    let hit = candidate_hits(query, q, cand)[i];
    let found = candidate_reports(query, q, cand)[i];
    law_hits_are_apart(query, q, cand);
    assert(found == report(query, cand, hit));
    assert(hit.start <= hit.end);
    let indices = found.indices;
    assert forall|j: int, k: int| 0 <= j <= k < indices.len() implies #[trigger] indices[j]
        <= #[trigger] indices[k] by {
        assert(cand.mapping@[hit.start + j] <= cand.mapping@[hit.start + k]);
        assert(cand.mapping@[hit.start + k] < cand.text@.len());
    }
    lemma_ascending_extremes(indices);
    assert(cand.mapping@[hit.end] < cand.text@.len());
}

} // verus!
