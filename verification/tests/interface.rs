//! Extraction, colours, the page cache, the query editor and the state of the interface.
use compact_str::CompactString;
use std::path::PathBuf;
use tracetext::cache::{PageRenderCache, TextureLruCache};
use tracetext::extractor::{DocumentExtractor, DocumentFormat, Glyph, IngestStep};
use tracetext::gui::{answer_ingestion, TraceTextGui};
use tracetext::models::{BBox, ParserRequest, ParserResponse, SpatialIndex};
use tracetext::palette::{hex_color, Palette, Rgb, ThemeMode};
use tracetext::queries::{
    parse_queries, replace_selection, selected_text, track_selection, SelectionStep,
};
use tracetext::results::TraceTextApp;
use tracetext::single::Single;

fn single(value: f32) -> Single {
    Single { bits: value.to_bits() }
}

fn bbox(left: f32) -> BBox {
    BBox { left: single(left), bottom: single(0.0), right: single(left + 1.0), top: single(9.0) }
}

fn glyph(text: &str, left: f32) -> Glyph {
    Glyph { text: text.to_string(), bounds: bbox(left) }
}

#[test]
fn glyphs_become_decomposed_text_with_locations() {
    let pages = vec![
        vec![glyph("É", 1.0), glyph("a", 2.0)],
        vec![],
        vec![glyph("", 3.0), glyph("bc", 4.0)],
    ];
    let index = DocumentExtractor.build_spatial_index(&pages);
    assert_eq!(index.searchable_corpus, "E\u{0301}abc");
    let places: Vec<(usize, BBox)> =
        index.char_mappings.iter().map(|c| (c.page_number, c.bounds)).collect();
    assert_eq!(
        places,
        vec![(1, bbox(1.0)), (1, bbox(1.0)), (1, bbox(2.0)), (3, bbox(4.0)), (3, bbox(4.0))]
    );
}

#[test]
fn documents_become_candidates() {
    let pages = vec![vec![glyph("Ñ", 1.0), glyph(" ", 2.0), glyph("O", 3.0)]];
    let (candidates, index) = DocumentExtractor.extract_unified_pipeline(&pages, "a/b.pdf");
    assert_eq!(candidates.len(), 1);
    assert_eq!(candidates[0].text, "N\u{0303} O");
    assert_eq!(candidates[0].text, index.searchable_corpus);
    assert_eq!(candidates[0].normalized_text, "n o");
    assert_eq!(candidates[0].mapping, vec![0, 2, 3]);
    assert_eq!(candidates[0].location, "a/b.pdf");
}

#[test]
fn ingestion_knows_its_formats() {
    let e = DocumentExtractor;
    assert_eq!(e.ingest_format(Some("pdf")), Ok(DocumentFormat::Pdf));
    assert_eq!(e.ingest_format(Some("DocX")), Ok(DocumentFormat::Docx));
    assert_eq!(
        e.ingest_format(Some("ODT")),
        Err("Unsupported file format: odt. Only PDF and DOCX are supported.".to_string())
    );
    assert_eq!(
        e.ingest_format(None),
        Err("Unsupported file format: . Only PDF and DOCX are supported.".to_string())
    );
}

#[test]
fn ingestion_converts_only_docx() {
    let e = DocumentExtractor;
    let ok = || Ok(vec![1u8, 2]);
    let err = || Err("x".to_string());
    let name = |s: IngestStep| match s {
        IngestStep::Done(b) => format!("done {b:?}"),
        IngestStep::Convert(b) => format!("convert {b:?}"),
        IngestStep::Failed(m) => m,
    };
    assert_eq!(name(e.ingest_to_pdf_bytes(DocumentFormat::Pdf, ok())), "done [1, 2]");
    assert_eq!(name(e.ingest_to_pdf_bytes(DocumentFormat::Docx, ok())), "convert [1, 2]");
    assert_eq!(
        name(e.ingest_to_pdf_bytes(DocumentFormat::Pdf, err())),
        "Failed to read native PDF file: x"
    );
    assert_eq!(
        name(e.ingest_to_pdf_bytes(DocumentFormat::Docx, err())),
        "Failed to read DOCX file: x"
    );
    assert_eq!(name(e.finish_conversion(ok())), "done [1, 2]");
    assert_eq!(
        name(e.finish_conversion(err())),
        "Failed to convert DOCX to PDF bytes via libreoffice-pure: x"
    );
}

#[test]
fn colours_are_read_from_hexadecimal_notation() {
    let rgb = |r: u8, g: u8, b: u8| Rgb { r, g, b };
    assert_eq!(hex_color("#1A2b3C"), rgb(0x1A, 0x2B, 0x3C));
    assert_eq!(hex_color("##1A2b3C"), rgb(0x1A, 0x2B, 0x3C));
    assert_eq!(hex_color("1A2b3C"), rgb(0x1A, 0x2B, 0x3C));
    assert_eq!(hex_color("#fff"), rgb(255, 255, 255));
    assert_eq!(hex_color(""), rgb(255, 255, 255));
    assert_eq!(hex_color("#zz10g0"), rgb(0, 0x10, 0));
    assert_eq!(hex_color("+a-1ff"), rgb(10, 0, 255));
    assert_eq!(hex_color("éé1f"), rgb(0, 0, 0x1F));
    for v in 0..=255u8 {
        let notation = format!("#{:02X}{:02x}{:02X}", v, 255 - v, v / 2);
        assert_eq!(hex_color(&notation), rgb(v, 255 - v, v / 2));
        for hashes in ["", "#", "###"] {
            let small = format!("{hashes}{:02x}{:02x}{:02x}", v, 255 - v, v / 2);
            let capital = format!("{hashes}{:02X}{:02X}{:02X}", v, 255 - v, v / 2);
            assert_eq!(hex_color(&small), rgb(v, 255 - v, v / 2));
            assert_eq!(hex_color(&capital), rgb(v, 255 - v, v / 2));
        }
    }
}

#[test]
fn palettes_of_the_themes() {
    let dark = Palette::current(true);
    assert_eq!(dark.base_bg, Rgb { r: 0x1A, g: 0x1A, b: 0x1D });
    assert_eq!(dark.panel_bg, Rgb { r: 0x24, g: 0x24, b: 0x27 });
    assert_eq!(dark.input_bg, Rgb { r: 0x2C, g: 0x2C, b: 0x30 });
    assert_eq!(dark.primary_text, Rgb { r: 0xE0, g: 0xE0, b: 0xE0 });
    assert_eq!(dark.strong_text, Rgb { r: 0xE0, g: 0xE0, b: 0xE0 });
    assert_eq!(dark.subdued_text, Rgb { r: 0x8E, g: 0x8E, b: 0x93 });
    assert_eq!(dark.idle_ctrl, Rgb { r: 0x00, g: 0x82, b: 0xBD });
    assert_eq!(dark.hover_ctrl, Rgb { r: 0x00, g: 0x9E, b: 0xE3 });
    assert_eq!(dark.active_ctrl, Rgb { r: 0x00, g: 0x67, b: 0x96 });
    assert_eq!(dark.row_alt, Rgb { r: 0x1E, g: 0x1E, b: 0x22 });
    assert_eq!(dark.row_hover, Rgb { r: 0x2A, g: 0x3A, b: 0x45 });
    assert_eq!(dark.row_sel, Rgb { r: 0x18, g: 0x45, b: 0x5E });
    assert_eq!(dark.match_bg, Rgb { r: 0xFA, g: 0xC3, b: 0xA9 });
    assert_eq!(dark.match_fg, Rgb { r: 0x11, g: 0x18, b: 0x27 });
    let light = Palette::current(false);
    assert_eq!(light.base_bg, Rgb { r: 0xE6, g: 0xE8, b: 0xEC });
    assert_eq!(light.panel_bg, Rgb { r: 0xE5, g: 0xE7, b: 0xEB });
    assert_eq!(light.input_bg, Rgb { r: 0xD1, g: 0xD5, b: 0xDB });
    assert_eq!(light.primary_text, Rgb { r: 0x37, g: 0x41, b: 0x51 });
    assert_eq!(light.strong_text, Rgb { r: 0x11, g: 0x18, b: 0x27 });
    assert_eq!(light.subdued_text, Rgb { r: 0x6B, g: 0x72, b: 0x80 });
    assert_eq!(light.idle_ctrl, Rgb { r: 0x00, g: 0x9E, b: 0xE3 });
    assert_eq!(light.hover_ctrl, Rgb { r: 0x33, g: 0xB2, b: 0xED });
    assert_eq!(light.active_ctrl, Rgb { r: 0x00, g: 0x7B, b: 0xB0 });
    assert_eq!(light.row_alt, Rgb { r: 0xF3, g: 0xF4, b: 0xF6 });
    assert_eq!(light.row_hover, Rgb { r: 0xE6, g: 0xF5, b: 0xFC });
    assert_eq!(light.row_sel, Rgb { r: 0xCC, g: 0xEA, b: 0xF7 });
    assert_eq!(light.match_bg, Rgb { r: 0xFA, g: 0xC3, b: 0xA9 });
    assert_eq!(light.match_fg, Rgb { r: 0x11, g: 0x18, b: 0x27 });
}

#[test]
fn theme_follows_the_system_where_asked() {
    assert!(ThemeMode::System.is_dark(None));
    assert!(ThemeMode::System.is_dark(Some(true)));
    assert!(!ThemeMode::System.is_dark(Some(false)));
    assert!(!ThemeMode::Light.is_dark(Some(true)));
    assert!(ThemeMode::Dark.is_dark(Some(false)));
}

fn page(index: usize, texture: u32) -> PageRenderCache<u32> {
    PageRenderCache {
        page_index: index,
        texture,
        page_width_points: single(595.0),
        page_height_points: single(842.0),
    }
}

fn texture(cache: &mut TextureLruCache<u32>, index: usize) -> Option<u32> {
    cache.get(index).map(|p| p.texture)
}

#[test]
fn cache_evicts_the_least_recently_used_page() {
    let mut cache = TextureLruCache::new(3);
    assert_eq!(texture(&mut cache, 1), None);
    for i in 1..=3 {
        cache.insert(i, page(i, 10 + i as u32));
    }
    assert_eq!(texture(&mut cache, 1), Some(11));
    cache.insert(4, page(4, 14));
    assert_eq!(texture(&mut cache, 2), None);
    assert_eq!(texture(&mut cache, 1), Some(11));
    assert_eq!(texture(&mut cache, 3), Some(13));
    assert_eq!(texture(&mut cache, 4), Some(14));
    cache.insert(1, page(1, 99));
    assert_eq!(texture(&mut cache, 3), Some(13));
    assert_eq!(texture(&mut cache, 1), Some(99));
    cache.clear();
    assert_eq!(texture(&mut cache, 1), None);
}

#[test]
fn cache_always_has_room_for_one_page() {
    let mut cache = TextureLruCache::new(0);
    cache.insert(1, page(1, 11));
    assert_eq!(texture(&mut cache, 1), Some(11));
    cache.insert(2, page(2, 12));
    assert_eq!(texture(&mut cache, 1), None);
    assert_eq!(texture(&mut cache, 2), Some(12));
}

fn strings(list: Vec<CompactString>) -> Vec<String> {
    list.iter().map(|s| s.to_string()).collect()
}

#[test]
fn queries_stand_one_per_line() {
    let text = "uno\n  dos tres \r\n\n \t\ncuatro";
    assert_eq!(strings(parse_queries(text)), ["uno", "dos tres", "cuatro"]);
    assert!(parse_queries("").is_empty());
    assert!(parse_queries(" \n\r\n\t").is_empty());
    assert_eq!(strings(parse_queries("\u{00a0}x\u{3000}\r")), ["x"]);
    for text in ["a\r\nb", "a\rb\n", "\r\r\n c", "ñ\n\nó\n"] {
        let plain: Vec<String> = text
            .lines()
            .filter(|l| !l.trim().is_empty())
            .map(|l| l.trim().to_string())
            .collect();
        assert_eq!(strings(parse_queries(text)), plain);
    }
}

#[test]
fn selections_are_counted_in_characters() {
    assert_eq!(selected_text("añejo", 1, 3), "ñe");
    assert_eq!(selected_text("añejo", 3, 99), "jo");
    assert_eq!(selected_text("añejo", 9, 12), "");
    assert_eq!(selected_text("añejo", 2, 2), "");
}

#[test]
fn pasted_text_replaces_the_selection() {
    assert_eq!(replace_selection("añejo", 1, 3, "XY"), "aXYjo");
    assert_eq!(replace_selection("añejo", 5, 5, "!"), "añejo!");
    assert_eq!(replace_selection("añejo", 0, 0, "¡"), "¡añejo");
    assert_eq!(replace_selection("añejo", 9, 12, "!"), "añejo!");
    let pasted = replace_selection("añejo", 1, 3, "ÓÓÓ");
    assert_eq!(selected_text(&pasted, 1, 4), "ÓÓÓ");
    let same = replace_selection("añejo", 1, 3, &selected_text("añejo", 1, 3));
    assert_eq!(same, "añejo");
}

fn gui() -> TraceTextGui<u32> {
    TraceTextGui::new()
}

#[test]
fn interface_starts_empty() {
    let g = gui();
    assert!(g.theme_mode == ThemeMode::System);
    assert_eq!(g.threshold, single(85.0));
    assert_eq!((g.buffer_size, g.display_limit), (60, 200));
    assert!(g.file_path.is_none() && g.results.is_empty() && g.queries_text.is_empty());
    assert_eq!(
        g.status_message,
        "Listo. Inicie cargando un documento de origen para el emparejamiento."
    );
}

#[test]
fn search_takes_a_document_and_queries() {
    let mut g = gui();
    assert!(g.request_search().is_none());
    assert_eq!(g.status_message, "Error: Cargue un archivo antes de procesar la búsqueda.");
    let request = g.select_document(PathBuf::from("a.pdf"));
    assert!(matches!(
        request,
        ParserRequest::IngestDocument { file_path } if file_path == PathBuf::from("a.pdf")
    ));
    assert_eq!(g.status_message, "Archivo importado. Generando índice espacial...");
    assert!(g.request_search().is_none());
    assert_eq!(g.status_message, "Error: Ingrese al menos una consulta válida.");
    g.paste(None, " uno \n\ndos");
    let order = g.request_search().unwrap();
    assert_eq!(order.file_path, PathBuf::from("a.pdf"));
    assert_eq!(strings(order.queries), ["uno", "dos"]);
}

fn rows() -> Vec<tracetext::results::DisplayRow> {
    let queries = vec![CompactString::from("q"), CompactString::from("r")];
    TraceTextApp::aggregate_results(&queries, &vec![], 9)
}

#[test]
fn outcomes_are_reported() {
    let mut g = gui();
    g.finish_search(Ok(rows()));
    assert_eq!(g.status_message, "Búsqueda completada. Se generaron 2 resultados.");
    assert_eq!(g.results.len(), 2);
    assert!(g.request_export());
    g.finish_export(Ok(()));
    assert_eq!(g.status_message, "Exportación completada.");
    g.finish_export(Err("disco".to_string()));
    assert_eq!(g.status_message, "Fallo en exportación: disco");
    g.finish_search(Err("roto".to_string()));
    assert_eq!(g.status_message, "Fallo del motor: roto");
    assert_eq!(g.results.len(), 2);
    let text = g.copy_results().unwrap();
    assert_eq!(text.lines().count(), 3);
    assert_eq!(g.status_message, "Transferido al portapapeles.");
    let mut empty = gui();
    assert!(!empty.request_export());
    assert_eq!(empty.status_message, "Error: No hay datos en la tabla.");
    assert!(empty.copy_results().is_none());
}

#[test]
fn clicked_row_asks_for_its_page() {
    let mut g = gui();
    g.finish_search(Ok(rows()));
    assert!(g.click_row(1).is_none());
    assert_eq!(g.selected_row_index, Some(1));
    assert!(g.pending_scroll_target.is_none());
    g.select_document(PathBuf::from("a.pdf"));
    g.results[0].page_number = 7;
    g.results[0].target_highlights = vec![bbox(3.0)];
    let request = g.click_row(0).unwrap();
    assert!(matches!(
        request,
        ParserRequest::FetchPage { file_path, page_index: 6, target_width_px: 1600 }
            if file_path == PathBuf::from("a.pdf")
    ));
    assert_eq!(g.pending_scroll_target, Some(vec![bbox(3.0)]));
    g.results[0].page_number = 1;
    assert!(matches!(g.click_row(0), Some(ParserRequest::FetchPage { page_index: 0, .. })));
    g.results[0].page_number = 0;
    assert!(matches!(g.click_row(0), Some(ParserRequest::FetchPage { page_index: 0, .. })));
    g.finish_search(Ok(rows()));
    assert_eq!(g.selected_row_index, None);
}

#[test]
fn editor_is_edited() {
    let mut g = gui();
    assert_eq!(g.paste(None, "añejo"), None);
    assert_eq!(g.paste(Some((1, 3)), "XYZ"), Some(4));
    assert_eq!(g.queries_text, "aXYZjo");
    assert_eq!(g.copy_selection(1, 4), "XYZ");
    assert_eq!(g.clear_queries(), 0);
    assert_eq!(g.queries_text, "");
}

#[test]
fn answers_of_the_worker_are_shown() {
    let mut g = gui();
    let index = SpatialIndex { searchable_corpus: String::new(), char_mappings: vec![] };
    let (answer, kept) = answer_ingestion(PathBuf::from("a.pdf"), vec![1, 2], Ok(index));
    assert_eq!(kept, Some(vec![1, 2]));
    assert!(g.receive(answer).is_none());
    assert_eq!(g.status_message, "Indexación espacial completada. Listo para búsqueda.");
    let built = Err("roto".to_string());
    let (answer, kept) = answer_ingestion(PathBuf::from("a.pdf"), vec![1, 2], built);
    assert_eq!(kept, None);
    assert!(g.receive(answer).is_none());
    assert_eq!(g.status_message, "Error del motor: Index mapping failed: roto");
    let upload = g
        .receive(ParserResponse::PageImage {
            file_path: PathBuf::from("a.pdf"),
            page_index: 5,
            rgba_buffer: vec![1, 2, 3, 4],
            width_px: 1,
            height_px: 1,
            page_width_points: single(595.0),
            page_height_points: single(842.0),
        })
        .unwrap();
    assert_eq!((upload.page_index, upload.width_px, upload.height_px), (5, 1, 1));
    assert_eq!(upload.rgba_buffer, vec![1, 2, 3, 4]);
    assert!(g.active_page().is_none());
    g.show_page(upload.page_index, page(5, 77));
    assert_eq!(g.active_page().map(|p| p.texture), Some(77));
    for i in 6..9 {
        g.show_page(i, page(i, i as u32));
    }
    g.active_page_index = Some(5);
    assert!(g.active_page().is_none());
}

#[test]
fn selection_survives_a_secondary_click() {
    assert_eq!(track_selection(true, false, false, true), SelectionStep::Remember);
    assert_eq!(track_selection(true, true, false, true), SelectionStep::Restore);
    assert_eq!(track_selection(false, false, true, true), SelectionStep::Restore);
    assert_eq!(track_selection(true, true, true, false), SelectionStep::Remember);
    assert_eq!(track_selection(false, true, false, false), SelectionStep::Leave);
}

#[test]
fn queries_are_tidy_and_stand_on_lines() {
    let parts = ["uno \r", "  ", "\tdos\u{00a0}tres", "", "x\r\ny"];
    for above in parts {
        for below in parts {
            let mut expected = strings(parse_queries(above));
            expected.append(&mut strings(parse_queries(below)));
            let both = format!("{above}\n{below}");
            assert_eq!(strings(parse_queries(&both)), expected);
            for q in strings(parse_queries(&both)) {
                assert!(!q.is_empty() && q == q.trim() && !q.contains('\n'));
            }
        }
    }
}

#[test]
fn cache_holds_the_newest_pages() {
    for capacity in 0..5usize {
        let mut cache = TextureLruCache::new(capacity);
        let mut newest: Vec<(usize, u32)> = Vec::new();
        let mut state: u32 = 7;
        for step in 0..400u32 {
            state = state.wrapping_mul(1664525).wrapping_add(1013904223);
            let index = (state >> 24) as usize % 7;
            let place = newest.iter().position(|e| e.0 == index);
            let held = place.map(|i| newest.remove(i));
            if (state >> 16) % 3 == 0 {
                cache.insert(index, page(index, step));
                newest.push((index, step));
                if newest.len() > capacity.max(1) {
                    newest.remove(0);
                }
            } else {
                assert_eq!(texture(&mut cache, index), held.map(|e| e.1));
                newest.extend(held);
            }
            if step % 97 == 96 {
                cache.clear();
                newest.clear();
            }
        }
    }
}

#[test]
fn pages_of_locations_ascend_from_one() {
    let pages = vec![vec![glyph("a", 1.0)], vec![], vec![glyph("É", 2.0)], vec![glyph("z", 3.0)]];
    let index = DocumentExtractor.build_spatial_index(&pages);
    let numbers: Vec<usize> = index.char_mappings.iter().map(|c| c.page_number).collect();
    assert_eq!(numbers, vec![1, 3, 3, 4]);
}
