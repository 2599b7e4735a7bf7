//! Highlights, boxes, rows and reports.
use compact_str::CompactString;
use tracetext::extractor::{DocumentExtractor, DocumentFormat, Glyph};
use tracetext::highlight::{apply_buffer, resolve_highlight};
use tracetext::models::{
    BBox, CharCoordinate, QueryMatch, SpatialIndex, StructuralLocation, TextCandidate,
};
use tracetext::report::{export_to_excel, format_clipboard_tsv, CellValue};
use tracetext::results::{DisplayRow, LocatedMatch, TraceTextApp};
use tracetext::search::StructuralSearchEngine;
use tracetext::single::Single;
use tracetext::spatial::resolve_spatial_highlights;

fn single(value: f32) -> Single {
    Single { bits: value.to_bits() }
}

fn bbox(left: f32, bottom: f32, right: f32, top: f32) -> BBox {
    BBox { left: single(left), bottom: single(bottom), right: single(right), top: single(top) }
}

fn index(coords: Vec<(usize, BBox)>) -> SpatialIndex {
    SpatialIndex {
        searchable_corpus: "x".repeat(coords.len()),
        char_mappings: coords
            .into_iter()
            .map(|(page_number, bounds)| CharCoordinate { page_number, bounds })
            .collect(),
    }
}

fn parts(text: &str, indices: &[u32]) -> (String, String, String) {
    let (a, b, c) = resolve_highlight(text, &indices.to_vec());
    (a.to_string(), b.to_string(), c.to_string())
}

fn three(a: &str, b: &str, c: &str) -> (String, String, String) {
    (a.to_string(), b.to_string(), c.to_string())
}

#[test]
fn highlight_reaches_from_the_lowest_to_the_highest_index() {
    assert_eq!(parts("aéîou", &[3, 1]), three("a", "éîo", "u"));
    assert_eq!(parts("aéîou", &[0, 4]), three("", "aéîou", ""));
    assert_eq!(parts("aéîou", &[2]), three("aé", "î", "ou"));
}

#[test]
fn highlight_outside_of_the_text() {
    assert_eq!(parts("abc", &[]), three("abc", "", ""));
    assert_eq!(parts("abc", &[1, 9]), three("a", "bc", ""));
    assert_eq!(parts("abc", &[7, 9]), three("", "abc", ""));
    assert_eq!(parts("", &[0]), three("", "", ""));
}

#[test]
fn context_is_cut_with_dots() {
    assert_eq!(apply_buffer("abcdef", 3, true).as_str(), "...def");
    assert_eq!(apply_buffer("abcdef", 3, false).as_str(), "abc...");
    assert_eq!(apply_buffer("abcdef", 6, true).as_str(), "abcdef");
    assert_eq!(apply_buffer("ábç", 0, false).as_str(), "...");
    assert_eq!(apply_buffer("", 0, true).as_str(), "");
}

#[test]
fn characters_on_a_line_share_a_box() {
    let spatial = index(vec![
        (2, bbox(10.0, 100.0, 15.0, 110.0)),
        (2, bbox(15.0, 99.0, 20.0, 109.0)),
        (2, bbox(20.0, 101.5, 26.0, 111.0)),
        (2, bbox(10.0, 80.0, 15.0, 90.0)),
        (3, bbox(10.0, 80.5, 15.0, 90.0)),
    ]);
    let (page, boxes) = resolve_spatial_highlights(&vec![0, 1, 2], &spatial);
    assert_eq!(page, 2);
    assert_eq!(boxes, vec![bbox(10.0, 99.0, 26.0, 111.0)]);
    let (page, boxes) = resolve_spatial_highlights(&vec![0, 1, 2, 3, 4], &spatial);
    assert_eq!(page, 3);
    assert_eq!(
        boxes,
        vec![
            bbox(10.0, 99.0, 26.0, 111.0),
            bbox(10.0, 80.0, 15.0, 90.0),
            bbox(10.0, 80.5, 15.0, 90.0),
        ]
    );
}

#[test]
fn a_line_ends_where_the_bottoms_are_three_points_apart() {
    let at = |bottom: f32| (1, bbox(0.0, bottom, 1.0, bottom + 9.0));
    let near = index(vec![at(50.0), at(52.9)]);
    assert_eq!(resolve_spatial_highlights(&vec![0, 1], &near).1.len(), 1);
    let far = index(vec![at(50.0), at(53.0)]);
    assert_eq!(resolve_spatial_highlights(&vec![0, 1], &far).1.len(), 2);
}

#[test]
fn characters_without_location_are_passed_over() {
    let spatial = index(vec![(7, bbox(0.0, 0.0, 1.0, 1.0))]);
    assert_eq!(resolve_spatial_highlights(&vec![], &spatial), (1, vec![]));
    assert_eq!(resolve_spatial_highlights(&vec![5, 9], &spatial), (1, vec![]));
    let (page, boxes) = resolve_spatial_highlights(&vec![5, 0, 9], &spatial);
    assert_eq!((page, boxes.len()), (7, 1));
}

#[test]
fn every_located_character_is_boxed() {
    let coords: Vec<(usize, BBox)> = (0..40)
        .map(|i| {
            let line = (i / 10) as f32;
            let x = (i % 10) as f32 * 6.0;
            (1 + i / 20, bbox(x, 700.0 - line * 14.0, x + 5.0, 710.0 - line * 14.0))
        })
        .collect();
    let spatial = index(coords.clone());
    let indices: Vec<u32> = (3..33).collect();
    let (page, boxes) = resolve_spatial_highlights(&indices, &spatial);
    assert_eq!(page, 2);
    assert_eq!(boxes.len(), 4);
    for i in indices {
        let inner = coords[i as usize].1;
        assert!(boxes.iter().any(|b| inner.left.at_least(b.left)
            && inner.bottom.at_least(b.bottom)
            && b.right.at_least(inner.right)
            && b.top.at_least(inner.top)));
    }
}

fn found(query: &str, score: f32, prefix: &str, matched: &str, suffix: &str) -> LocatedMatch {
    LocatedMatch {
        found: QueryMatch {
            query: CompactString::from(query),
            matches: true,
            similarity_score: single(score),
            prefix: CompactString::from(prefix),
            match_text: CompactString::from(matched),
            suffix: CompactString::from(suffix),
            matched_indices: vec![],
            location: String::new(),
        },
        location: StructuralLocation::Pdf { page_number: 4, block_index: 2 },
        page_number: 4,
        target_highlights: vec![bbox(1.0, 2.0, 3.0, 4.0)],
    }
}

fn queries(list: &[&str]) -> Vec<CompactString> {
    list.iter().map(|q| CompactString::from(*q)).collect()
}

#[test]
fn rows_are_compiled_query_by_query() {
    let matches = vec![
        found("b", 90.0, "x", "b", "y"),
        found("a", 98.0, "1", "a", "2"),
        found("b", 80.0, "z", "B", "w"),
    ];
    let rows = TraceTextApp::aggregate_results(&queries(&["a", "c", "b"]), &matches, 200);
    let texts: Vec<(String, String)> =
        rows.iter().map(|r| (r.query.clone(), r.full_text())).collect();
    let pair = |a: &str, b: &str| (a.to_string(), b.to_string());
    assert_eq!(
        texts,
        vec![pair("a", "1{a}2"), pair("c", "N/A"), pair("b", "x{b}y"), pair("b", "z{B}w")]
    );
    assert_eq!(rows[0].location, "Page 4 (Block 2)");
    assert_eq!(rows[0].page_number, 4);
    assert_eq!(rows[0].target_highlights, vec![bbox(1.0, 2.0, 3.0, 4.0)]);
    assert_eq!(rows[0].score, single(98.0));
}

#[test]
fn queries_without_matches_get_a_row() {
    let rows = TraceTextApp::aggregate_results(&queries(&["q"]), &vec![], 10);
    assert_eq!(rows.len(), 1);
    assert_eq!(rows[0].query, "q");
    assert_eq!(rows[0].score, single(0.0));
    assert_eq!(rows[0].location, "N/A");
    assert!(rows[0].raw_location.is_none());
    assert_eq!(rows[0].full_text(), "N/A");
    assert_eq!(rows[0].page_number, 1);
    assert!(rows[0].target_highlights.is_empty());
}

#[test]
fn paragraphs_are_named_by_their_heading() {
    let mut m = found("a", 98.0, "", "a", "");
    m.location = StructuralLocation::Docx {
        global_paragraph_index: 12,
        heading_context: "Alcance".to_string(),
    };
    let rows = TraceTextApp::aggregate_results(&queries(&["a"]), &vec![m], 10);
    assert_eq!(rows[0].location, "Heading: \"Alcance\" (Paragraph 12)");
    assert!(matches!(
        &rows[0].raw_location,
        Some(StructuralLocation::Docx { global_paragraph_index: 12, heading_context })
            if heading_context == "Alcance"
    ));
}

#[test]
fn long_rows_are_cut_around_the_match() {
    let m = || vec![found("q", 98.0, "abc\ndefghij", "MATCH", "0123456789")];
    let one = |limit: usize| {
        let rows = TraceTextApp::aggregate_results(&queries(&["q"]), &m(), limit);
        (rows[0].prefix.clone(), rows[0].match_text.clone(), rows[0].suffix.clone())
    };
    assert_eq!(one(26), three("abc defghij", "MATCH", "0123456789"));
    assert_eq!(one(25), three("...bc defghij", "MATCH", "0123456789"));
    assert_eq!(one(10), three("...ij", "MATCH", "01..."));
    assert_eq!(one(5), three("...", "MATCH", "..."));
    assert_eq!(one(0), three("...", "MATCH", "..."));
}

#[test]
fn line_breaks_become_spaces() {
    let m = found("q", 98.0, "a\nb", "c\nd", "\ne");
    let rows = TraceTextApp::aggregate_results(&queries(&["q"]), &vec![m], 100);
    assert_eq!(rows[0].full_text(), "a b{c d} e");
}

fn document(text: &str) -> (Vec<TextCandidate>, SpatialIndex) {
    let glyphs: Vec<Glyph> = text
        .chars()
        .enumerate()
        .map(|(i, c)| Glyph {
            text: c.to_string(),
            bounds: bbox(i as f32 * 5.0, 700.0, i as f32 * 5.0 + 4.0, 710.0),
        })
        .collect();
    DocumentExtractor.extract_unified_pipeline(&vec![vec![], glyphs], "doc.pdf")
}

fn run(text: &str, list: &[&str], threshold: f32, buffer: usize, limit: usize) -> Vec<DisplayRow> {
    let (candidates, spatial) = document(text);
    TraceTextApp::run_search(
        candidates,
        &spatial,
        queries(list),
        single(threshold),
        buffer,
        limit,
    )
}

#[test]
fn search_shows_matches_with_context_and_place() {
    let rows = run("El requisito uno y el requisito dos", &["requisito", "falta"], 85.0, 4, 200);
    let texts: Vec<String> = rows.iter().map(|r| r.full_text()).collect();
    assert_eq!(texts, vec!["El {requisito} uno...", "... el {requisito} dos", "N/A"]);
    assert_eq!(rows[0].page_number, 2);
    assert_eq!(rows[0].location, "Page 2 (Block 0)");
    assert_eq!(rows[0].target_highlights, vec![bbox(15.0, 700.0, 59.0, 710.0)]);
    assert_eq!(rows[0].score, single(100.0));
}

#[test]
fn threshold_decides_what_is_shown() {
    let text = "el documento de verificasion final";
    let shown = |threshold: f32| run(text, &["verificación"], threshold, 60, 200);
    let low = shown(50.0);
    assert!(low[0].raw_location.is_some());
    let score = f32::from_bits(low[0].score.bits);
    assert_eq!(shown(score)[0].full_text(), low[0].full_text());
    assert!(shown(score + 0.1)[0].raw_location.is_none());
    assert!(shown(f32::NAN)[0].raw_location.is_none());
    assert!(run(text, &["DOCUMENTO"], 98.0, 60, 200)[0].raw_location.is_some());
    assert!(run(text, &["DOCUMENTO"], 98.5, 60, 200)[0].raw_location.is_none());
}

#[test]
fn decomposed_letters_are_found() {
    let rows = run("la verificación", &["verificación"], 85.0, 60, 200);
    assert_eq!(rows[0].score, single(98.0));
    assert_eq!(rows[0].match_text, "verificacio\u{0301}n");
    assert_eq!(rows[0].target_highlights.len(), 1);
}

#[test]
fn formats_are_told_by_the_extension() {
    assert_eq!(TraceTextApp::check_format(Some("PDF")), Ok(DocumentFormat::Pdf));
    assert_eq!(TraceTextApp::check_format(Some("docx")), Ok(DocumentFormat::Docx));
    assert_eq!(
        TraceTextApp::check_format(Some("TXT")),
        Err("Unsupported file format: txt".to_string())
    );
    assert_eq!(
        TraceTextApp::check_format(None),
        Err("Input file lacks a valid extension".to_string())
    );
}

#[test]
fn clipboard_text_has_a_line_per_row() {
    let matches = vec![found("b", 90.456, "x", "b", "y")];
    let rows = TraceTextApp::aggregate_results(&queries(&["a", "b"]), &matches, 200);
    assert_eq!(
        format_clipboard_tsv(&rows),
        "Consulta\tPuntuación\tTexto Original Coincidente\tPágina\n\
         a\t0.00\tN/A\t1\nb\t90.46\tx{b}y\t4\n"
    );
    assert_eq!(
        format_clipboard_tsv(&vec![]),
        "Consulta\tPuntuación\tTexto Original Coincidente\tPágina\n"
    );
}

#[test]
fn sheet_has_a_line_per_row() {
    let matches = vec![found("b", 90.5, "x", "b", "y")];
    let rows = TraceTextApp::aggregate_results(&queries(&["a", "b"]), &matches, 200);
    let cells: Vec<(u32, u16, String)> = export_to_excel(&rows)
        .into_iter()
        .map(|c| {
            let text = match c.value {
                CellValue::Text(t) => t,
                CellValue::Number(n) => format!("={}", f32::from_bits(n.bits)),
            };
            (c.row, c.column, text)
        })
        .collect();
    let cell = |r: u32, c: u16, t: &str| (r, c, t.to_string());
    assert_eq!(
        cells,
        vec![
            cell(0, 0, "Consulta"),
            cell(0, 1, "Puntuación"),
            cell(0, 2, "Texto Original Coincidente"),
            cell(0, 3, "Página"),
            cell(1, 0, "a"),
            cell(1, 1, "=0"),
            cell(1, 2, "N/A"),
            cell(1, 3, "1"),
            cell(2, 0, "b"),
            cell(2, 1, "=90.5"),
            cell(2, 2, "x{b}y"),
            cell(2, 3, "4"),
        ]
    );
}

#[test]
fn copies_of_text_without_letters_have_no_matches() {
    let (normalized, _) = StructuralSearchEngine::normalize_text_with_mapping("...");
    assert!(normalized.is_empty());
    let rows = run("texto", &["..."], 0.0, 60, 200);
    assert_eq!(rows[0].full_text(), "N/A");
}

#[test]
fn rows_have_labels() {
    let matches = vec![found("b", 90.5, "x", "b", "y")];
    let rows = TraceTextApp::aggregate_results(&queries(&["a", "b"]), &matches, 200);
    assert_eq!(rows[1].page_label(), "Página 4");
    assert!(rows[1].is_match());
    assert!(!rows[0].is_match());
}

#[test]
fn marked_characters_are_highlighted() {
    for indices in [vec![0u32], vec![2, 4], vec![3, 1, 2]] {
        let (prefix, marked, _) = parts("aéîou", &indices);
        let start = prefix.chars().count() as u32;
        let end = start + marked.chars().count() as u32;
        assert!(indices.iter().all(|i| start <= *i && *i < end));
    }
}

#[test]
fn cut_context_is_bounded() {
    for n in 0..9 {
        for is_prefix in [true, false] {
            assert!(apply_buffer("ábcdéf", n, is_prefix).chars().count() <= n + 3);
        }
    }
}

#[test]
fn clipboard_text_of_tidy_rows_is_clean() {
    let rows = run("El requisito uno\ny el requisito dos", &["requisito", "falta"], 85.0, 9, 60);
    let text = format_clipboard_tsv(&rows);
    assert_eq!(text.matches('\n').count(), rows.len() + 1);
    assert!(text.lines().all(|l| l.matches('\t').count() == 3));
}

#[test]
fn every_match_of_a_document_is_located() {
    for query in ["requisito", "rekisito", "UNO y", "dos"] {
        for row in run("El requisito uno y el requisito dos", &[query], 0.0, 60, 200) {
            if row.is_match() {
                assert!(!row.target_highlights.is_empty());
                assert_eq!(row.page_number, 2);
            }
        }
    }
}

#[test]
fn rows_name_pages_of_the_document() {
    let text = "uno dos tres cuatro";
    let pages: Vec<Vec<Glyph>> = text
        .split(' ')
        .map(|word| {
            let glyphs = format!("{word} ");
            glyphs
                .chars()
                .map(|c| Glyph { text: c.to_string(), bounds: bbox(0.0, 0.0, 1.0, 1.0) })
                .collect()
        })
        .collect();
    let (candidates, spatial) = DocumentExtractor.extract_unified_pipeline(&pages, "doc.pdf");
    let rows = TraceTextApp::run_search(
        candidates,
        &spatial,
        queries(&["cuatro", "uno", "TRES", "falta"]),
        single(85.0),
        60,
        200,
    );
    let numbers: Vec<usize> = rows.iter().map(|r| r.page_number).collect();
    assert_eq!(numbers, vec![4, 1, 3, 1]);
}

#[test]
fn boxes_are_those_of_runs() {
    let spatial = index(vec![
        (1, bbox(0.0, 100.0, 4.0, 110.0)),
        (1, bbox(5.0, 98.0, 9.0, 112.0)),
        (1, bbox(10.0, 102.0, 14.0, 109.0)),
        (2, bbox(15.0, 98.0, 19.0, 108.0)),
        (2, bbox(20.0, 99.0, 24.0, 111.0)),
    ]);
    let (page, boxes) = resolve_spatial_highlights(&vec![0, 1, 9, 2, 3, 4], &spatial);
    assert_eq!(page, 2);
    assert_eq!(
        boxes,
        vec![
            bbox(0.0, 98.0, 9.0, 112.0),
            bbox(10.0, 102.0, 14.0, 109.0),
            bbox(15.0, 98.0, 24.0, 111.0),
        ]
    );
}
