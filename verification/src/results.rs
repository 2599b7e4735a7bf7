//! The rows of the results table: what was found for each query, or that nothing was.
use compact_str::CompactString;
use vstd::prelude::*;
use vstd::string::StringExecFns;

use crate::bridge::compact_chars;
use crate::decimal::{decimal, push_decimal};
use crate::extractor::{
    corpus_coords, format_of, known_format, law_pages_are_numbered_from_one, lower_extension,
    DocumentFormat, Glyph,
};
use crate::highlight::{apply_buffer, buffered, clip};
use crate::models::{
    found_all, BBox, CharCoordinate, Found, Located, QueryMatch, SpatialIndex, StructuralLocation,
    TextCandidate,
};
use crate::normalize::normalized_chars;
use crate::search::{
    candidate_reports, law_verbatim_text_is_found, query_reports, search_reports,
    StructuralSearchEngine, NORMALIZED_BITS,
};
use crate::single::{Single, INFINITY_BITS};
use crate::spatial::{lemma_page_range, marked_boxes, marked_page, resolve_spatial_highlights};
use crate::text::{chars_of, same_chars, text_of};

verus! {

/// A row of the results table.
#[derive(Clone)]
pub struct DisplayRow {
    pub query: String,
    pub score: Single,
    pub prefix: String,
    pub match_text: String,
    pub suffix: String,
    pub location: String,
    pub raw_location: Option<StructuralLocation>,
    pub page_number: usize,
    pub target_highlights: Vec<BBox>,
}

/// What a [`DisplayRow`] says.
pub struct Row {
    pub query: Seq<char>,
    pub score: Single,
    pub prefix: Seq<char>,
    pub match_text: Seq<char>,
    pub suffix: Seq<char>,
    pub location: Seq<char>,
    pub raw_location: Option<Located>,
    pub page_number: usize,
    pub target_highlights: Seq<BBox>,
}

impl View for DisplayRow {
    type V = Row;

    open spec fn view(&self) -> Row {
        Row {
            query: self.query@,
            score: self.score,
            prefix: self.prefix@,
            match_text: self.match_text@,
            suffix: self.suffix@,
            location: self.location@,
            raw_location: match self.raw_location {
                None => None,
                Some(l) => Some(l@),
            },
            page_number: self.page_number,
            target_highlights: self.target_highlights@,
        }
    }
}

/// What the rows of a list say.
pub open spec fn all_rows(rows: Seq<DisplayRow>) -> Seq<Row> {
    rows.map_values(|r: DisplayRow| r@)
}

/// The score is above zero: the row stands for a match.
pub open spec fn scored(score: Single) -> bool {
    0 < score.bits <= INFINITY_BITS
}

/// The text of a row, with the match in braces.
pub open spec fn row_text(row: Row) -> Seq<char> {
    if scored(row.score) {
        row.prefix + seq!['{'] + row.match_text + seq!['}'] + row.suffix
    } else {
        row.prefix
    }
}

impl DisplayRow {
    /// Tells whether the row stands for a match.
    pub fn is_match(&self) -> (r: bool)
        ensures
            r == scored(self.score),
    {
        0 < self.score.bits && self.score.bits <= INFINITY_BITS
    }

    /// The label of the page.
    pub fn page_label(&self) -> (label: String)
        ensures
            label@ == "Página "@ + decimal(self.page_number as int),
    {
        let mut label = String::new();
        label.append("Página ");
        push_decimal(&mut label, self.page_number as u128);
        label
    }

    /// The text of the row, with the match in braces.
    pub fn full_text(&self) -> (text: String)
        ensures
            text@ == row_text(self@),
    {
        let mut text = self.prefix.clone();
        if self.is_match() {
            text.push('{');
            text.append(&self.match_text);
            text.push('}');
            text.append(&self.suffix);
        }
        text
    }
}

/// A match together with its place in the document.
pub struct LocatedMatch {
    pub found: QueryMatch,
    pub location: StructuralLocation,
    pub page_number: usize,
    pub target_highlights: Vec<BBox>,
}

/// What a [`LocatedMatch`] says.
pub struct Placed {
    pub found: Found,
    pub location: Located,
    pub page_number: usize,
    pub target_highlights: Seq<BBox>,
}

impl View for LocatedMatch {
    type V = Placed;

    open spec fn view(&self) -> Placed {
        Placed {
            found: self.found@,
            location: self.location@,
            page_number: self.page_number,
            target_highlights: self.target_highlights@,
        }
    }
}

/// What the located matches of a list say.
pub open spec fn placed_all(matches: Seq<LocatedMatch>) -> Seq<Placed> {
    matches.map_values(|m: LocatedMatch| m@)
}

/// The text on one line.
pub open spec fn on_one_line(text: Seq<char>) -> Seq<char> {
    text.map_values(
        |c: char|
            if c == '\n' {
                ' '
            } else {
                c
            },
    )
}

/// A location in words.
pub open spec fn location_text(location: Located) -> Seq<char> {
    match location {
        Located::Pdf { page_number, block_index } => "Page "@ + decimal(page_number as int)
            + " (Block "@ + decimal(block_index as int) + ")"@,
        Located::Docx { global_paragraph_index, heading_context } => "Heading: \""@
            + heading_context + "\" (Paragraph "@ + decimal(global_paragraph_index as int) + ")"@,
    }
}

/// How much context is shown on each side of a match of `match_len` characters, where not all of
/// it can be: half of what the limit leaves.
pub open spec fn shown_context(match_len: int, display_limit: int) -> int {
    if display_limit > match_len {
        (display_limit - match_len) / 2
    } else {
        0
    }
}

/// The row of a match. Its text is on one line; where it is longer than the limit, the context is
/// cut on both sides.
pub open spec fn match_row(query: Seq<char>, m: Placed, display_limit: int) -> Row {
    let prefix = on_one_line(m.found.prefix);
    let match_text = on_one_line(m.found.match_text);
    let suffix = on_one_line(m.found.suffix);
    let fits = prefix.len() + match_text.len() + suffix.len() <= display_limit;
    let half = shown_context(match_text.len() as int, display_limit);
    Row {
        query,
        score: m.found.score,
        prefix: if fits {
            prefix
        } else {
            buffered(prefix, half, true)
        },
        match_text,
        suffix: if fits {
            suffix
        } else {
            buffered(suffix, half, false)
        },
        location: location_text(m.location),
        raw_location: Some(m.location),
        page_number: m.page_number,
        target_highlights: m.target_highlights,
    }
}

/// The row of a query for which nothing was found.
pub open spec fn missing_row(query: Seq<char>) -> Row {
    Row {
        query,
        score: Single { bits: 0 },
        prefix: "N/A"@,
        match_text: Seq::empty(),
        suffix: Seq::empty(),
        location: "N/A"@,
        raw_location: None,
        page_number: 1,
        target_highlights: Seq::empty(),
    }
}

/// The rows of the matches of a query, in their order.
pub open spec fn match_rows(query: Seq<char>, matches: Seq<Placed>, display_limit: int) -> Seq<
    Row,
> {
    matches.filter(|m: Placed| m.found.query == query).map_values(
        |m: Placed| match_row(query, m, display_limit),
    )
}

/// The rows of a query: those of its matches, or one that says that there are none.
pub open spec fn query_rows(query: Seq<char>, matches: Seq<Placed>, display_limit: int) -> Seq<
    Row,
> {
    let rows = match_rows(query, matches, display_limit);
    if rows.len() == 0 {
        seq![missing_row(query)]
    } else {
        rows
    }
}

/// The rows of all queries, in the order of the queries.
pub open spec fn aggregated(
    queries: Seq<CompactString>,
    matches: Seq<Placed>,
    display_limit: int,
) -> Seq<Row> {
    Seq::new(
        queries.len(),
        |i: int| query_rows(compact_chars(queries[i]), matches, display_limit),
    ).flatten()
}

/// The matches that reach the threshold.
pub open spec fn kept(reports: Seq<Found>, threshold: Single) -> Seq<Found> {
    reports.filter(|f: Found| f.score.not_below(threshold))
}

/// A match with its context cut to `buffer_size` characters on each side.
pub open spec fn with_buffer(f: Found, buffer_size: int) -> Found {
    Found {
        prefix: buffered(f.prefix, buffer_size, true),
        suffix: buffered(f.suffix, buffer_size, false),
        ..f
    }
}

/// A match with its place. The text of a document is one continuous block.
pub open spec fn placed(f: Found, coords: Seq<CharCoordinate>) -> Placed {
    let page = marked_page(f.indices, coords);
    Placed {
        found: f,
        location: Located::Pdf { page_number: page as u32, block_index: 0 },
        page_number: page,
        target_highlights: marked_boxes(f.indices, coords),
    }
}

/// The matches that are shown: those that reach the threshold, with their context cut and their
/// place in the document.
pub open spec fn shown(
    reports: Seq<Found>,
    coords: Seq<CharCoordinate>,
    threshold: Single,
    buffer_size: int,
) -> Seq<Placed> {
    kept(reports, threshold).map_values(
        |f: Found| placed(with_buffer(f, buffer_size), coords),
    )
}

/// Replaces the line breaks of a text.
fn flatten_lines(text: &str) -> (r: Vec<char>)
    ensures
        r@ == on_one_line(text@),
{
    let mut r = chars_of(text);
    let mut i: usize = 0;
    while i < r.len()
        invariant
            i <= r@.len(),
            r@ == on_one_line(text@.take(i as int)) + text@.skip(i as int),
            r@.len() == text@.len(),
        decreases r.len() - i,
    {
        if r[i] == '\n' {
            r.set(i, ' ');
        }
        i = i + 1;
    }
    r
}

/// Writes a location in words.
fn describe(location: &StructuralLocation) -> (text: String)
    ensures
        text@ == location_text(location@),
{
    let mut text = String::new();
    match location {
        StructuralLocation::Pdf { page_number, block_index } => {
            text.append("Page ");
            push_decimal(&mut text, *page_number as u128);
            text.append(" (Block ");
            push_decimal(&mut text, *block_index as u128);
            text.append(")");
        },
        StructuralLocation::Docx { global_paragraph_index, heading_context } => {
            text.append("Heading: \"");
            text.append(heading_context);
            text.append("\" (Paragraph ");
            push_decimal(&mut text, *global_paragraph_index as u128);
            text.append(")");
        },
    }
    text
}

/// Makes the row of a match.
fn make_row(query: &CompactString, m: &LocatedMatch, display_limit: usize) -> (row: DisplayRow)
    ensures
        row@ == match_row(compact_chars(*query), m@, display_limit as int),
{
    let prefix = flatten_lines(m.found.prefix.as_str());
    let match_text = flatten_lines(m.found.match_text.as_str());
    let suffix = flatten_lines(m.found.suffix.as_str());
    let match_len = match_text.len();
    let total: u128 = prefix.len() as u128 + match_len as u128 + suffix.len() as u128;
    let (shown_prefix, shown_suffix) = if total > display_limit as u128 {
        let half: usize = if display_limit > match_len {
            (display_limit - match_len) / 2
        } else {
            0
        };
        (half, half)
    } else {
        (prefix.len(), suffix.len())
    };
    let mut query_text = String::new();
    query_text.append(query.as_str());
    let mut highlights: Vec<BBox> = Vec::new();
    let mut i: usize = 0;
    while i < m.target_highlights.len()
        invariant
            i <= m.target_highlights@.len(),
            highlights@ == m.target_highlights@.take(i as int),
        decreases m.target_highlights.len() - i,
    {
        highlights.push(m.target_highlights[i]);
        i = i + 1;
    }
    proof {
        assert(m.target_highlights@.take(i as int) == m.target_highlights@);
    }
    DisplayRow {
        query: query_text,
        score: m.found.similarity_score,
        prefix: clip(&prefix, shown_prefix, true),
        match_text: text_of(&match_text),
        suffix: clip(&suffix, shown_suffix, false),
        location: describe(&m.location),
        raw_location: Some(m.location.duplicate()),
        page_number: m.page_number,
        target_highlights: highlights,
    }
}

/// Makes the row of a query for which nothing was found.
fn make_missing_row(query: &CompactString) -> (row: DisplayRow)
    ensures
        row@ == missing_row(compact_chars(*query)),
{
    let mut query_text = String::new();
    query_text.append(query.as_str());
    let mut prefix = String::new();
    prefix.append("N/A");
    let mut location = String::new();
    location.append("N/A");
    DisplayRow {
        query: query_text,
        score: Single { bits: 0 },
        prefix,
        match_text: String::new(),
        suffix: String::new(),
        location,
        raw_location: None,
        page_number: 1,
        target_highlights: Vec::new(),
    }
}

/// Makes the rows of a query.
fn make_rows(query: &CompactString, matches: &[LocatedMatch], display_limit: usize) -> (rows: Vec<
    DisplayRow,
>)
    ensures
        all_rows(rows@) == query_rows(
            compact_chars(*query),
            placed_all(matches@),
            display_limit as int,
        ),
{
    let mut rows: Vec<DisplayRow> = Vec::new();
    let wanted = chars_of(query.as_str());
    let ghost q = compact_chars(*query);
    let ghost all = placed_all(matches@);
    let ghost limit = display_limit as int;
    let ghost is_wanted = |m: Placed| m.found.query == q;
    let ghost to_row = |m: Placed| match_row(q, m, limit);
    proof {
        reveal(Seq::filter);
    }
    let mut i: usize = 0;
    while i < matches.len()
        invariant
            i <= matches@.len(),
            wanted@ == q,
            q == compact_chars(*query),
            limit == display_limit,
            all == placed_all(matches@),
            is_wanted == (|m: Placed| m.found.query == q),
            to_row == (|m: Placed| match_row(q, m, limit)),
            all_rows(rows@) == all.take(i as int).filter(is_wanted).map_values(to_row),
        decreases matches.len() - i,
    {
        let ghost before = rows@;
        proof {
            reveal(Seq::filter);
            assert(all.take(i + 1).drop_last() == all.take(i as int));
        }
        if same_chars(&chars_of(matches[i].found.query.as_str()), &wanted) {
            rows.push(make_row(query, &matches[i], display_limit));
            assert(all_rows(rows@) == all_rows(before).push(to_row(matches@[i as int]@)));
        }
        i = i + 1;
    }
    assert(all.take(i as int) == all);
    if rows.len() == 0 {
        rows.push(make_missing_row(query));
    }
    rows
}

/// Drops the matches below the threshold, cuts the context of the others and locates them.
fn locate_matches(
    matches: &[QueryMatch],
    spatial_index: &SpatialIndex,
    threshold: Single,
    buffer_size: usize,
) -> (located: Vec<LocatedMatch>)
    ensures
        placed_all(located@) == shown(
            found_all(matches@),
            spatial_index.char_mappings@,
            threshold,
            buffer_size as int,
        ),
{
    let mut located: Vec<LocatedMatch> = Vec::new();
    let ghost all = found_all(matches@);
    let ghost coords = spatial_index.char_mappings@;
    let ghost buffer = buffer_size as int;
    let ghost reaches = |f: Found| f.score.not_below(threshold);
    let ghost to_placed = |f: Found| placed(with_buffer(f, buffer), coords);
    proof {
        reveal(Seq::filter);
    }
    let mut i: usize = 0;
    while i < matches.len()
        invariant
            i <= matches@.len(),
            all == found_all(matches@),
            coords == spatial_index.char_mappings@,
            buffer == buffer_size,
            reaches == (|f: Found| f.score.not_below(threshold)),
            to_placed == (|f: Found| placed(with_buffer(f, buffer), coords)),
            placed_all(located@) == all.take(i as int).filter(reaches).map_values(to_placed),
        decreases matches.len() - i,
    {
        let ghost before = located@;
        let m = &matches[i];
        proof {
            reveal(Seq::filter);
            assert(all.take(i + 1).drop_last() == all.take(i as int));
        }
        if m.similarity_score.at_least(threshold) {
            located.push(locate_match(m, spatial_index, buffer_size));
            assert(placed_all(located@) == placed_all(before).push(
                to_placed(matches@[i as int]@),
            ));
        }
        i = i + 1;
    }
    assert(all.take(i as int) == all);
    located
}

/// Cuts the context of a match and locates it.
fn locate_match(m: &QueryMatch, spatial_index: &SpatialIndex, buffer_size: usize) -> (located:
    LocatedMatch)
    ensures
        located@ == placed(
            with_buffer(m@, buffer_size as int),
            spatial_index.char_mappings@,
        ),
{
    let (page_number, target_highlights) = resolve_spatial_highlights(
        &m.matched_indices,
        spatial_index,
    );
    let mut matched_indices: Vec<u32> = Vec::new();
    let mut i: usize = 0;
    while i < m.matched_indices.len()
        invariant
            i <= m.matched_indices@.len(),
            matched_indices@ == m.matched_indices@.take(i as int),
        decreases m.matched_indices.len() - i,
    {
        matched_indices.push(m.matched_indices[i]);
        i = i + 1;
    }
    assert(m.matched_indices@.take(i as int) == m.matched_indices@);
    let found = QueryMatch {
        query: m.query.clone(),
        matches: m.matches,
        similarity_score: m.similarity_score,
        prefix: apply_buffer(m.prefix.as_str(), buffer_size, true),
        match_text: m.match_text.clone(),
        suffix: apply_buffer(m.suffix.as_str(), buffer_size, false),
        matched_indices,
        location: m.location.clone(),
    };
    LocatedMatch {
        found,
        location: StructuralLocation::Pdf {
            page_number: #[verifier::truncate] (page_number as u32),
            block_index: 0,
        },
        page_number,
        target_highlights,
    }
}

/// The search as the user sees it: from a document and a list of queries to rows.
pub struct TraceTextApp;

impl TraceTextApp {
    /// Tells whether a file can be searched, by the extension of its name.
    pub fn check_format(extension: Option<&str>) -> (r: Result<DocumentFormat, String>)
        ensures
            match (extension, r) {
                (Some(e), Ok(format)) => known_format(lower_extension(e@)) == Some(format),
                (Some(e), Err(message)) => known_format(lower_extension(e@)) is None && message@
                    == "Unsupported file format: "@ + lower_extension(e@),
                (None, Ok(_)) => false,
                (None, Err(message)) => message@ == "Input file lacks a valid extension"@,
            },
    {
        match extension {
            None => Err("Input file lacks a valid extension".to_owned()),
            Some(e) => {
                let lower = e.to_lowercase();
                match format_of(&lower) {
                    Some(format) => Ok(format),
                    None => {
                        let mut message = String::new();
                        message.append("Unsupported file format: ");
                        message.append(&lower);
                        Err(message)
                    },
                }
            },
        }
    }

    /// Searches the extracted text of a document. The matches that reach the threshold become
    /// rows, with at most `buffer_size` characters of context on each side, and cut to
    /// `display_limit` characters where they are longer.
    pub fn run_search(
        candidates: Vec<TextCandidate>,
        spatial_index: &SpatialIndex,
        queries: Vec<CompactString>,
        threshold: Single,
        buffer_size: usize,
        display_limit: usize,
    ) -> (rows: Vec<DisplayRow>)
        ensures
            all_rows(rows@) == aggregated(
                queries@,
                shown(
                    search_reports(queries@, candidates@),
                    spatial_index.char_mappings@,
                    threshold,
                    buffer_size as int,
                ),
                display_limit as int,
            ),
    {
        let engine = StructuralSearchEngine::new(candidates);
        let matches = engine.search(&queries);
        let located = locate_matches(&matches, spatial_index, threshold, buffer_size);
        TraceTextApp::aggregate_results(&queries, &located, display_limit)
    }

    /// Compiles matches into rows, query by query.
    pub fn aggregate_results(
        all_queries: &[CompactString],
        matches: &[LocatedMatch],
        display_limit: usize,
    ) -> (rows: Vec<DisplayRow>)
        ensures
            all_rows(rows@) == aggregated(
                all_queries@,
                placed_all(matches@),
                display_limit as int,
            ),
    {
        let mut rows: Vec<DisplayRow> = Vec::new();
        let ghost per_query = Seq::new(
            all_queries@.len(),
            |i: int|
                query_rows(
                    compact_chars(all_queries@[i]),
                    placed_all(matches@),
                    display_limit as int,
                ),
        );
        let mut i: usize = 0;
        while i < all_queries.len()
            invariant
                i <= all_queries@.len(),
                per_query.len() == all_queries@.len(),
                forall|j: int|
                    0 <= j < per_query.len() ==> #[trigger] per_query[j] == query_rows(
                        compact_chars(all_queries@[j]),
                        placed_all(matches@),
                        display_limit as int,
                    ),
                all_rows(rows@) == per_query.take(i as int).flatten(),
            decreases all_queries.len() - i,
        {
            let mut more = make_rows(&all_queries[i], matches, display_limit);
            rows.append(&mut more);
            proof {
                assert(per_query.take(i + 1).drop_last() == per_query.take(i as int));
                per_query.take(i + 1).lemma_flatten_and_flatten_alt_are_equivalent();
                per_query.take(i as int).lemma_flatten_and_flatten_alt_are_equivalent();
            }
            i = i + 1;
        }
        assert(per_query.take(i as int) == per_query);
        rows
    }
}

/// Every query gets at least one row, and the rows it gets name it. It gets the one that says that
/// nothing was found if and only if no match belongs to it.
pub proof fn law_every_query_is_answered(
    query: Seq<char>,
    matches: Seq<Placed>,
    display_limit: int,
)
    ensures
        query_rows(query, matches, display_limit).len() >= 1,
        forall|i: int|
            0 <= i < query_rows(query, matches, display_limit).len() ==> (#[trigger] query_rows(
                query,
                matches,
                display_limit,
            )[i]).query == query,
        query_rows(query, matches, display_limit) == seq![missing_row(query)] <==> forall|i: int|
            0 <= i < matches.len() ==> (#[trigger] matches[i]).found.query != query,
{
    let is_wanted = |m: Placed| m.found.query == query;
    let wanted = matches.filter(is_wanted);
    if wanted.len() == 0 {
        assert forall|i: int| 0 <= i < matches.len() implies (#[trigger] matches[i]).found.query
            != query by {
            if is_wanted(matches[i]) {
                assert(wanted.contains(matches[i]));
            }
        }
    } else {
        assert(matches.contains(wanted[0])) by {
            matches.lemma_filter_contains_rev(is_wanted, wanted[0]);
        }
        assert(seq![missing_row(query)][0].raw_location is None);
    }
}

/// The queries are answered one by one, in their order: the rows of two lists of queries are the
/// rows of the first and then those of the second.
pub proof fn law_queries_are_answered_in_order(
    first: Seq<CompactString>,
    second: Seq<CompactString>,
    matches: Seq<Placed>,
    display_limit: int,
)
    ensures
        aggregated(first + second, matches, display_limit) == aggregated(
            first,
            matches,
            display_limit,
        ) + aggregated(second, matches, display_limit),
{
    let of = |queries: Seq<CompactString>|
        Seq::new(
            queries.len(),
            |i: int| query_rows(compact_chars(queries[i]), matches, display_limit),
        );
    assert(of(first + second) == of(first) + of(second));
    vstd::seq_lib::lemma_flatten_concat(of(first), of(second));
}

/// A row shows the match on one line, and no more context than the limit allows: dots apart, the
/// whole is no longer than the limit or, where the match alone is longer, than the match.
pub proof fn law_rows_fit(query: Seq<char>, m: Placed, display_limit: int)
    requires
        display_limit >= 0,
    ensures
        ({
            let row = match_row(query, m, display_limit);
            let room = if display_limit < row.match_text.len() {
                row.match_text.len() as int
            } else {
                display_limit
            };
            &&& row.prefix.len() + row.match_text.len() + row.suffix.len() <= room + 6
            &&& !row.prefix.contains('\n')
            &&& !row.match_text.contains('\n')
            &&& !row.suffix.contains('\n')
            &&& row.match_text.len() == m.found.match_text.len()
        }),
{
}

/// Exactly the matches that reach the threshold are shown.
pub proof fn law_threshold_decides(
    reports: Seq<Found>,
    coords: Seq<CharCoordinate>,
    threshold: Single,
    buffer_size: int,
)
    ensures
        forall|i: int|
            0 <= i < shown(reports, coords, threshold, buffer_size).len() ==> (#[trigger] shown(
                reports,
                coords,
                threshold,
                buffer_size,
            )[i]).found.score.not_below(threshold),
        forall|i: int|
            0 <= i < reports.len() && (#[trigger] reports[i]).score.not_below(threshold)
                ==> shown(reports, coords, threshold, buffer_size).contains(
                placed(with_buffer(reports[i], buffer_size), coords),
            ),
{
    let list = kept(reports, threshold);
    let all = shown(reports, coords, threshold, buffer_size);
    assert forall|i: int|
        0 <= i < reports.len() && (#[trigger] reports[i]).score.not_below(
            threshold,
        ) implies all.contains(placed(with_buffer(reports[i], buffer_size), coords)) by {
        assert(list.contains(reports[i]));
        let k = choose|k: int| 0 <= k < list.len() && list[k] == reports[i];
        assert(all[k] == placed(with_buffer(reports[i], buffer_size), coords));
    }
}

proof fn lemma_flatten_contains<A>(parts: Seq<Seq<A>>, i: int, j: int)
    requires
        0 <= i < parts.len(),
        0 <= j < parts[i].len(),
    ensures
        parts.flatten().contains(parts[i][j]),
    decreases parts.len(),
{
    let rest = parts.drop_first().flatten();
    let all = parts.flatten();
    if i == 0 {
        assert(all[j] == parts[0][j]);
    } else {
        lemma_flatten_contains(parts.drop_first(), i - 1, j);
        let k = choose|k: int| 0 <= k < rest.len() && rest[k] == parts[i][j];
        assert(all[parts.first().len() + k] == parts[i][j]);
    }
}

/// A query whose very words stand somewhere in the document is found, whatever the threshold up
/// to 98: its first row is that of a match.
pub proof fn law_verbatim_query_is_found(
    queries: Seq<CompactString>,
    candidates: Seq<TextCandidate>,
    coords: Seq<CharCoordinate>,
    threshold: Single,
    buffer_size: int,
    display_limit: int,
    i: int,
    k: int,
    before: Seq<char>,
    after: Seq<char>,
)
    requires
        0 <= i < queries.len(),
        0 <= k < candidates.len(),
        candidates[k].text@ == before + compact_chars(queries[i]) + after,
        candidates[k].normalized_text@ == normalized_chars(candidates[k].text@),
        normalized_chars(compact_chars(queries[i])).len() > 0,
        (Single { bits: NORMALIZED_BITS }).not_below(threshold),
    ensures
        ({
            let matches = shown(
                search_reports(queries, candidates),
                coords,
                threshold,
                buffer_size,
            );
            let rows = query_rows(compact_chars(queries[i]), matches, display_limit);
            &&& rows[0].raw_location is Some
            &&& rows[0].score.not_below(threshold)
        }),
{
    let query = compact_chars(queries[i]);
    let q = normalized_chars(query);
    law_verbatim_text_is_found(candidates[k], before, query, after);
    let of_candidate = candidate_reports(query, q, candidates[k]);
    let f = of_candidate[0];
    let per_candidate = Seq::new(
        candidates.len(),
        |c: int| candidate_reports(query, q, candidates[c]),
    );
    lemma_flatten_contains(per_candidate, k, 0);
    let of_query = query_reports(query, candidates);
    let at = choose|at: int| 0 <= at < of_query.len() && of_query[at] == f;
    let per_query = Seq::new(
        queries.len(),
        |n: int| query_reports(compact_chars(queries[n]), candidates),
    );
    lemma_flatten_contains(per_query, i, at);
    let reports = search_reports(queries, candidates);
    law_threshold_decides(reports, coords, threshold, buffer_size);
    let matches = shown(reports, coords, threshold, buffer_size);
    let m = placed(with_buffer(f, buffer_size), coords);
    let is_wanted = |m: Placed| m.found.query == query;
    let wanted = matches.filter(is_wanted);
    let j = choose|j: int| 0 <= j < matches.len() && matches[j] == m;
    assert(wanted.contains(matches[j]));
    matches.lemma_filter_contains_rev(is_wanted, wanted[0]);
}

proof fn lemma_flatten_all<A>(parts: Seq<Seq<A>>, holds: spec_fn(A) -> bool)
    requires
        forall|i: int, j: int|
            0 <= i < parts.len() && 0 <= j < parts[i].len() ==> holds(#[trigger] parts[i][j]),
    ensures
        forall|k: int| 0 <= k < parts.flatten().len() ==> holds(#[trigger] parts.flatten()[k]),
    decreases parts.len(),
{
    if parts.len() > 0 {
        let rest = parts.drop_first();
        assert forall|i: int, j: int| 0 <= i < rest.len() && 0 <= j < rest[i].len() implies holds(
            #[trigger] rest[i][j],
        ) by {
            assert(holds(parts[i + 1][j]));
        }
        lemma_flatten_all(rest, holds);
        assert(parts.flatten() == parts.first() + rest.flatten());
        assert forall|k: int| 0 <= k < parts.flatten().len() implies holds(
            #[trigger] parts.flatten()[k],
        ) by {
            if k < parts.first().len() {
                assert(holds(parts[0][k]));
            }
        }
    }
}

/// The rows of a search in an extracted document name pages of the document, which are numbered
/// from one.
pub proof fn law_rows_name_pages_of_the_document(
    queries: Seq<CompactString>,
    candidates: Seq<TextCandidate>,
    pages: Seq<Vec<Glyph>>,
    threshold: Single,
    buffer_size: int,
    display_limit: int,
)
    requires
        0 < pages.len() <= usize::MAX,
    ensures
        ({
            let matches = shown(
                search_reports(queries, candidates),
                corpus_coords(pages, pages.len()),
                threshold,
                buffer_size,
            );
            let rows = aggregated(queries, matches, display_limit);
            forall|i: int|
                0 <= i < rows.len() ==> 1 <= (#[trigger] rows[i]).page_number <= pages.len()
        }),
{
    let last = pages.len() as int;
    let coords = corpus_coords(pages, pages.len());
    let reports = search_reports(queries, candidates);
    let matches = shown(reports, coords, threshold, buffer_size);
    let in_range = |row: Row| 1 <= row.page_number <= last;
    law_pages_are_numbered_from_one(pages, pages.len());
    assert forall|k: int| 0 <= k < matches.len() implies 1 <= (#[trigger] matches[k]).page_number
        <= last by {
        let f = kept(reports, threshold)[k];
        lemma_page_range(f.indices, coords, f.indices.len(), last);
    }
    let parts = Seq::new(
        queries.len(),
        |i: int| query_rows(compact_chars(queries[i]), matches, display_limit),
    );
    assert forall|i: int, j: int| 0 <= i < parts.len() && 0 <= j < parts[i].len() implies in_range(
        #[trigger] parts[i][j],
    ) by {
        let query = compact_chars(queries[i]);
        let is_wanted = |m: Placed| m.found.query == query;
        let wanted = matches.filter(is_wanted);
        if wanted.len() > 0 {
            matches.lemma_filter_contains_rev(is_wanted, wanted[j]);
        }
    }
    lemma_flatten_all(parts, in_range);
    let rows = aggregated(queries, matches, display_limit);
    assert forall|i: int| 0 <= i < rows.len() implies 1 <= (#[trigger] rows[i]).page_number
        <= pages.len() by {
        assert(in_range(rows[i]));
    }
}

/// A row says what its match says: the query, the score, the page, the boxes and the whole of the
/// matched text, with spaces in place of line breaks. Where everything fits into the limit, so does
/// the context, in full; where not, the context is what stands next to the match on either side, as
/// much of it as half of what the match leaves of the limit.
pub proof fn law_row_says_what_its_match_says(query: Seq<char>, m: Placed, display_limit: int)
    requires
        display_limit >= 0,
    ensures
        ({
            let row = match_row(query, m, display_limit);
            let f = m.found;
            let total = f.prefix.len() + f.match_text.len() + f.suffix.len();
            let half = if display_limit > f.match_text.len() {
                (display_limit - f.match_text.len()) / 2
            } else {
                0
            };
            &&& row.query == query
            &&& row.score == f.score
            &&& row.page_number == m.page_number
            &&& row.target_highlights == m.target_highlights
            &&& row.raw_location == Some(m.location)
            &&& row.location == location_text(m.location)
            &&& row.match_text.len() == f.match_text.len()
            &&& forall|i: int|
                0 <= i < f.match_text.len() ==> row.match_text[i] == if (#[trigger] f.match_text[i])
                    == '\n' {
                    ' '
                } else {
                    f.match_text[i]
                }
            &&& total <= display_limit ==> row.prefix.len() == f.prefix.len() && row.suffix.len()
                == f.suffix.len()
            &&& total > display_limit ==> row.prefix.len() == if f.prefix.len() <= half {
                f.prefix.len() as int
            } else {
                half + 3
            }
            &&& total > display_limit ==> row.suffix.len() == if f.suffix.len() <= half {
                f.suffix.len() as int
            } else {
                half + 3
            }
            &&& forall|k: int|
                1 <= k <= f.prefix.len() && (total <= display_limit || k <= half)
                    ==> row.prefix[row.prefix.len() - k] == if (#[trigger] f.prefix[f.prefix.len()
                    - k]) == '\n' {
                    ' '
                } else {
                    f.prefix[f.prefix.len() - k]
                }
            &&& forall|k: int|
                0 <= k < f.suffix.len() && (total <= display_limit || k < half) ==> row.suffix[k]
                    == if (#[trigger] f.suffix[k]) == '\n' {
                    ' '
                } else {
                    f.suffix[k]
                }
        }),
{
    let row = match_row(query, m, display_limit);
    let f = m.found;
    let total = f.prefix.len() + f.match_text.len() + f.suffix.len();
    let half = if display_limit > f.match_text.len() {
        (display_limit - f.match_text.len()) / 2
    } else {
        0
    };
    let prefix = on_one_line(f.prefix);
    assert forall|k: int|
        1 <= k <= f.prefix.len() && (total <= display_limit || k <= half) implies row.prefix[
        row.prefix.len() - k] == if (#[trigger] f.prefix[f.prefix.len() - k]) == '\n' {
        ' '
    } else {
        f.prefix[f.prefix.len() - k]
    } by {
        assert(prefix[prefix.len() - k] == row.prefix[row.prefix.len() - k]);
    }
}

/// The text of a row that stands for a match is the whole of it, with the match in braces; the text
/// of any other row is what stands in front.
pub proof fn law_text_of_a_row(row: Row)
    ensures
        0 < row.score.bits <= 0x7F80_0000 ==> ({
            let n = row.prefix.len() as int;
            let m = n + 1 + row.match_text.len();
            &&& row_text(row).len() == m + 1 + row.suffix.len()
            &&& row_text(row).subrange(0, n) == row.prefix
            &&& row_text(row)[n] == '{'
            &&& row_text(row).subrange(n + 1, m) == row.match_text
            &&& row_text(row)[m] == '}'
            &&& row_text(row).subrange(m + 1, m + 1 + row.suffix.len()) == row.suffix
        }),
        row.score.bits == 0 ==> row_text(row) == row.prefix,
{
}

/// A match of the query adds its row behind the others, and takes the place of the row that says
/// that there is none; a match of another query changes nothing. The row that says that there is
/// none has no score, no place and the text N/A.
pub proof fn law_match_adds_its_row(
    query: Seq<char>,
    matches: Seq<Placed>,
    m: Placed,
    display_limit: int,
)
    ensures
        m.found.query != query ==> query_rows(query, matches.push(m), display_limit) == query_rows(
            query,
            matches,
            display_limit,
        ),
        m.found.query == query && (forall|i: int|
            0 <= i < matches.len() ==> (#[trigger] matches[i]).found.query != query) ==> query_rows(
            query,
            matches.push(m),
            display_limit,
        ) == seq![match_row(query, m, display_limit)],
        m.found.query == query && (exists|i: int|
            0 <= i < matches.len() && (#[trigger] matches[i]).found.query == query) ==> query_rows(
            query,
            matches.push(m),
            display_limit,
        ) == query_rows(query, matches, display_limit).push(match_row(query, m, display_limit)),
        ({
            let rows = query_rows(query, Seq::empty(), display_limit);
            &&& rows.len() == 1
            &&& rows[0].query == query
            &&& rows[0].score.bits == 0
            &&& rows[0].prefix == seq!['N', '/', 'A']
            &&& rows[0].match_text.len() == 0
            &&& rows[0].suffix.len() == 0
            &&& rows[0].location == seq!['N', '/', 'A']
            &&& rows[0].raw_location is None
            &&& rows[0].page_number == 1
            &&& rows[0].target_highlights.len() == 0
        }),
{
    let is_wanted = |m: Placed| m.found.query == query;
    let to_row = |m: Placed| match_row(query, m, display_limit);
    let wanted = matches.filter(is_wanted);
    reveal_strlit("N/A");
    assert("N/A"@ == seq!['N', '/', 'A']);
    assert(matches.push(m).drop_last() == matches);
    assert(matches.push(m).filter(is_wanted) == if is_wanted(m) {
        wanted.push(m)
    } else {
        wanted
    }) by {
        reveal(Seq::filter);
    }
    assert(Seq::<Placed>::empty().filter(is_wanted).len() == 0) by {
        reveal(Seq::filter);
    }
    assert(wanted.push(m).map_values(to_row) == wanted.map_values(to_row).push(to_row(m)));
    if forall|i: int| 0 <= i < matches.len() ==> (#[trigger] matches[i]).found.query != query {
        if wanted.len() > 0 {
            matches.lemma_filter_contains_rev(is_wanted, wanted[0]);
        }
        assert(wanted.push(m).map_values(to_row) == seq![to_row(m)]);
    } else {
        let i = choose|i: int|
            0 <= i < matches.len() && (#[trigger] matches[i]).found.query == query;
        assert(is_wanted(matches[i]));
        assert(wanted.contains(matches[i]));
    }
}

/// The rows of one query are all its rows.
pub proof fn law_rows_of_one_query(query: CompactString, matches: Seq<Placed>, display_limit: int)
    ensures
        aggregated(seq![query], matches, display_limit) == query_rows(
            compact_chars(query),
            matches,
            display_limit,
        ),
{
    let one = Seq::new(
        1,
        |i: int| query_rows(compact_chars(seq![query][i]), matches, display_limit),
    );
    assert(one == seq![query_rows(compact_chars(query), matches, display_limit)]);
    one.lemma_flatten_one_element();
}

/// A match with a score that is not below the threshold is shown behind the others, any other one
/// is not. What is shown of it is what was reported of it: its query, its score, its text and what
/// it is marked with, with the context cut on either side, the page and the boxes of the marks, and
/// the page, with block zero, as its location.
pub proof fn law_match_is_shown(
    reports: Seq<Found>,
    f: Found,
    coords: Seq<CharCoordinate>,
    threshold: Single,
    buffer_size: int,
)
    requires
        f.score.bits < 0x7F80_0000,
        threshold.bits < 0x7F80_0000,
    ensures
        ({
            let before = shown(reports, coords, threshold, buffer_size);
            let after = shown(reports.push(f), coords, threshold, buffer_size);
            let m = after.last();
            &&& f.score.bits < threshold.bits ==> after == before
            &&& f.score.bits >= threshold.bits ==> {
                &&& after.len() == before.len() + 1
                &&& after.subrange(0, before.len() as int) == before
                &&& m.found.query == f.query
                &&& m.found.score == f.score
                &&& m.found.match_text == f.match_text
                &&& m.found.indices == f.indices
                &&& m.found.prefix == buffered(f.prefix, buffer_size, true)
                &&& m.found.suffix == buffered(f.suffix, buffer_size, false)
                &&& m.page_number == marked_page(f.indices, coords)
                &&& m.target_highlights == marked_boxes(f.indices, coords)
                &&& m.location == (Located::Pdf {
                    page_number: marked_page(f.indices, coords) as u32,
                    block_index: 0,
                })
            }
        }),
        shown(Seq::empty(), coords, threshold, buffer_size).len() == 0,
{
    let reaches = |f: Found| f.score.not_below(threshold);
    let to_placed = |f: Found| placed(with_buffer(f, buffer_size), coords);
    let list = reports.filter(reaches);
    assert(reports.push(f).drop_last() == reports);
    assert(reports.push(f).filter(reaches) == if reaches(f) {
        list.push(f)
    } else {
        list
    }) by {
        reveal(Seq::filter);
    }
    assert(Seq::<Found>::empty().filter(reaches).len() == 0) by {
        reveal(Seq::filter);
    }
    assert(list.push(f).map_values(to_placed) == list.map_values(to_placed).push(to_placed(f)));
    let before = shown(reports, coords, threshold, buffer_size);
    let after = shown(reports.push(f), coords, threshold, buffer_size);
    if reaches(f) {
        assert(after == before.push(to_placed(f)));
        assert(after.subrange(0, before.len() as int) == before);
    }
}

/// A place on a page is named by the number of the page and of the block, one below a heading by
/// the heading and the number of the paragraph.
pub proof fn law_places_are_named(page_number: u32, index: usize, heading: Seq<char>)
    ensures
        ({
            let named = location_text(Located::Pdf { page_number, block_index: index });
            let page = decimal(page_number as int);
            let block = decimal(index as int);
            named == seq!['P', 'a', 'g', 'e', ' '] + page + seq![
                ' ',
                '(',
                'B',
                'l',
                'o',
                'c',
                'k',
                ' ',
            ] + block + seq![')']
        }),
        ({
            let named = location_text(
                Located::Docx { global_paragraph_index: index, heading_context: heading },
            );
            named == "Heading: \""@ + heading + "\" (Paragraph "@ + decimal(index as int) + ")"@
        }),
{
    reveal_strlit("Page ");
    reveal_strlit(" (Block ");
    reveal_strlit(")");
    assert("Page "@ == seq!['P', 'a', 'g', 'e', ' ']);
    assert(" (Block "@ == seq![' ', '(', 'B', 'l', 'o', 'c', 'k', ' ']);
    assert(")"@ == seq![')']);
}

} // verus!
