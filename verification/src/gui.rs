//! What the window shows and how it reacts: the state behind the interface, with one step for each
//! thing that can happen. A step changes the state and says what is to be done outside of it.
use compact_str::CompactString;
use std::path::PathBuf;
use vstd::prelude::*;
use vstd::string::StringExecFns;

use crate::cache::{inserted, page_of, used, PageRenderCache, TextureLruCache};
use crate::decimal::{decimal, push_decimal};
use crate::models::{BBox, ParserRequest, ParserResponse, SpatialIndex};
use crate::palette::ThemeMode;
use crate::queries::{
    parse_queries, queries_from, replace_selection, replaced, selected_text, selection, texts,
};
use crate::report::{format_clipboard_tsv, tsv};
use crate::results::{all_rows, DisplayRow, Row};
use crate::single::Single;

verus! {

/// The encoding of 85, the threshold at the start.
pub const DEFAULT_THRESHOLD_BITS: u32 = 0x42AA_0000;

/// The width in pixels at which pages are rasterized.
pub const TARGET_WIDTH_PX: i32 = 1600;

/// The index, counted from zero, of the page with a number counted from one.
pub open spec fn page_index_of(page_number: usize) -> usize {
    if page_number > 0 {
        (page_number - 1) as usize
    } else {
        0
    }
}

/// The state of the interface. `T` is the type of textures.
pub struct TraceTextGui<T> {
    pub theme_mode: ThemeMode,
    pub file_path: Option<PathBuf>,
    pub queries_text: String,
    pub threshold: Single,
    pub buffer_size: usize,
    pub display_limit: usize,
    pub results: Vec<DisplayRow>,
    pub status_message: String,
    pub selected_row_index: Option<usize>,
    pub texture_cache: TextureLruCache<T>,
    pub active_page_index: Option<usize>,
    pub pending_scroll_target: Option<Vec<BBox>>,
}

/// What a [`TraceTextGui`] shows.
pub struct Screen<T> {
    pub theme_mode: ThemeMode,
    pub file_path: Option<PathBuf>,
    pub queries_text: Seq<char>,
    pub threshold: Single,
    pub buffer_size: usize,
    pub display_limit: usize,
    pub results: Seq<Row>,
    pub status_message: Seq<char>,
    pub selected_row_index: Option<usize>,
    pub pages: Seq<(usize, PageRenderCache<T>)>,
    pub capacity: usize,
    pub active_page_index: Option<usize>,
    pub pending_scroll_target: Option<Seq<BBox>>,
}

impl<T> View for TraceTextGui<T> {
    type V = Screen<T>;

    open spec fn view(&self) -> Screen<T> {
        Screen {
            theme_mode: self.theme_mode,
            file_path: self.file_path,
            queries_text: self.queries_text@,
            threshold: self.threshold,
            buffer_size: self.buffer_size,
            display_limit: self.display_limit,
            results: all_rows(self.results@),
            status_message: self.status_message@,
            selected_row_index: self.selected_row_index,
            pages: self.texture_cache@,
            capacity: self.texture_cache.capacity(),
            active_page_index: self.active_page_index,
            pending_scroll_target: match self.pending_scroll_target {
                None => None,
                Some(boxes) => Some(boxes@),
            },
        }
    }
}

/// A search that is to be run.
pub struct SearchOrder {
    pub file_path: PathBuf,
    pub queries: Vec<CompactString>,
}

/// Pixels that are to become a texture.
pub struct PageUpload {
    pub page_index: usize,
    pub rgba_buffer: Vec<u8>,
    pub width_px: usize,
    pub height_px: usize,
    pub page_width_points: Single,
    pub page_height_points: Single,
}

impl<T> TraceTextGui<T> {
    /// The state is in order: the cache is, and the selected row is one of the rows.
    pub open spec fn wf(&self) -> bool {
        &&& self.texture_cache.wf()
        &&& self@.selected_row_index matches Some(i) ==> i < self@.results.len()
    }

    /// The state at the start: no document, no queries, no results.
    pub fn new() -> (gui: Self)
        ensures
            gui.wf(),
            gui@ == (Screen::<T> {
                theme_mode: ThemeMode::System,
                file_path: None,
                queries_text: Seq::empty(),
                threshold: Single { bits: DEFAULT_THRESHOLD_BITS },
                buffer_size: 60,
                display_limit: 200,
                results: Seq::empty(),
                status_message:
                    "Listo. Inicie cargando un documento de origen para el emparejamiento."@,
                selected_row_index: None,
                pages: Seq::empty(),
                capacity: 3,
                active_page_index: None,
                pending_scroll_target: None,
            }),
    {
        let results: Vec<DisplayRow> = Vec::new();
        let texture_cache: TextureLruCache<T> = TextureLruCache::new(3);
        proof {
            assert(all_rows(results@) == Seq::<Row>::empty());
            assert(texture_cache@ == Seq::<(usize, PageRenderCache<T>)>::empty());
        }
        TraceTextGui {
            theme_mode: ThemeMode::System,
            file_path: None,
            queries_text: String::new(),
            threshold: Single { bits: DEFAULT_THRESHOLD_BITS },
            buffer_size: 60,
            display_limit: 200,
            results,
            status_message:
                "Listo. Inicie cargando un documento de origen para el emparejamiento.".to_owned(),
            selected_row_index: None,
            texture_cache,
            active_page_index: None,
            pending_scroll_target: None,
        }
    }

    /// A document was selected: it is to be indexed.
    pub fn select_document(&mut self, path: PathBuf) -> (request: ParserRequest)
        ensures
            request == (ParserRequest::IngestDocument { file_path: path }),
            final(self)@ == (Screen {
                file_path: Some(path),
                status_message: "Archivo importado. Generando índice espacial..."@,
                ..old(self)@
            }),
            old(self).wf() ==> final(self).wf(),
    {
        let request = ParserRequest::IngestDocument { file_path: path.clone() };
        self.file_path = Some(path);
        self.status_message = "Archivo importado. Generando índice espacial...".to_owned();
        request
    }

    /// The search button was clicked. A search takes a document and at least one query.
    pub fn request_search(&mut self) -> (order: Option<SearchOrder>)
        ensures
            match order {
                Some(o) => {
                    &&& old(self)@.file_path == Some(o.file_path)
                    &&& texts(o.queries@) == queries_from(old(self)@.queries_text, 0)
                    &&& o.queries@.len() > 0
                    &&& final(self)@ == old(self)@
                },
                None => {
                    &&& old(self)@.file_path is None || queries_from(
                        old(self)@.queries_text,
                        0,
                    ).len() == 0
                    &&& final(self)@ == (Screen {
                        status_message: if old(self)@.file_path is None {
                            "Error: Cargue un archivo antes de procesar la búsqueda."@
                        } else {
                            "Error: Ingrese al menos una consulta válida."@
                        },
                        ..old(self)@
                    })
                },
            },
            old(self).wf() ==> final(self).wf(),
    {
        match &self.file_path {
            Some(path) => {
                let queries = parse_queries(&self.queries_text);
                if queries.len() == 0 {
                    self.status_message = "Error: Ingrese al menos una consulta válida.".to_owned();
                    None
                } else {
                    Some(SearchOrder { file_path: path.clone(), queries })
                }
            },
            None => {
                self.status_message =
                "Error: Cargue un archivo antes de procesar la búsqueda.".to_owned();
                None
            },
        }
    }

    /// A search is over.
    pub fn finish_search(&mut self, outcome: Result<Vec<DisplayRow>, String>)
        ensures
            final(self)@ == match outcome {
                Ok(rows) => Screen {
                    results: all_rows(rows@),
                    status_message: "Búsqueda completada. Se generaron "@ + decimal(
                        rows@.len() as int,
                    ) + " resultados."@,
                    selected_row_index: None,
                    ..old(self)@
                },
                Err(e) => Screen { status_message: "Fallo del motor: "@ + e@, ..old(self)@ },
            },
            old(self).wf() ==> final(self).wf(),
    {
        let mut message = String::new();
        match outcome {
            Ok(rows) => {
                message.append("Búsqueda completada. Se generaron ");
                push_decimal(&mut message, rows.len() as u128);
                message.append(" resultados.");
                self.results = rows;
                self.selected_row_index = None;
            },
            Err(e) => {
                message.append("Fallo del motor: ");
                message.append(&e);
            },
        }
        self.status_message = message;
    }

    /// The export button was clicked. Tells whether there is anything to be exported.
    pub fn request_export(&mut self) -> (ready: bool)
        ensures
            ready == (old(self)@.results.len() > 0),
            final(self)@ == if ready {
                old(self)@
            } else {
                Screen { status_message: "Error: No hay datos en la tabla."@, ..old(self)@ }
            },
            old(self).wf() ==> final(self).wf(),
    {
        if self.results.len() == 0 {
            self.status_message = "Error: No hay datos en la tabla.".to_owned();
            false
        } else {
            true
        }
    }

    /// An export is over.
    pub fn finish_export(&mut self, outcome: Result<(), String>)
        ensures
            final(self)@ == (Screen {
                status_message: match outcome {
                    Ok(_) => "Exportación completada."@,
                    Err(e) => "Fallo en exportación: "@ + e@,
                },
                ..old(self)@
            }),
            old(self).wf() ==> final(self).wf(),
    {
        match outcome {
            Ok(_) => {
                self.status_message = "Exportación completada.".to_owned();
            },
            Err(e) => {
                let mut message = String::new();
                message.append("Fallo en exportación: ");
                message.append(&e);
                self.status_message = message;
            },
        }
    }

    /// The copy button was clicked. Gives the text for the clipboard, if there are results.
    pub fn copy_results(&mut self) -> (text: Option<String>)
        ensures
            match text {
                Some(t) => {
                    &&& old(self)@.results.len() > 0
                    &&& t@ == tsv(old(self)@.results, old(self)@.results.len())
                    &&& final(self)@ == (Screen {
                        status_message: "Transferido al portapapeles."@,
                        ..old(self)@
                    })
                },
                None => old(self)@.results.len() == 0 && final(self)@ == old(self)@,
            },
            old(self).wf() ==> final(self).wf(),
    {
        if self.results.len() == 0 {
            None
        } else {
            let text = format_clipboard_tsv(&self.results);
            self.status_message = "Transferido al portapapeles.".to_owned();
            Some(text)
        }
    }

    /// The text that is selected in the query editor.
    pub fn copy_selection(&self, start: usize, end: usize) -> (text: String)
        requires
            start <= end,
        ensures
            text@ == selection(self@.queries_text, start as int, end as int),
    {
        selected_text(&self.queries_text, start, end)
    }

    /// Text was pasted into the query editor. It replaces the selection, or stands at the end if
    /// nothing is known of a selection. Gives the new place of the caret, which is behind the
    /// pasted text.
    pub fn paste(&mut self, range: Option<(usize, usize)>, pasted: &str) -> (caret: Option<usize>)
        requires
            range matches Some((start, _)) ==> start + pasted@.len() <= usize::MAX,
        ensures
            match range {
                Some((start, end)) => {
                    &&& caret == Some((start + pasted@.len()) as usize)
                    &&& final(self)@ == (Screen {
                        queries_text: replaced(
                            old(self)@.queries_text,
                            start as int,
                            end as int,
                            pasted@,
                        ),
                        ..old(self)@
                    })
                },
                None => {
                    &&& caret is None
                    &&& final(self)@ == (Screen {
                        queries_text: old(self)@.queries_text + pasted@,
                        ..old(self)@
                    })
                },
            },
            old(self).wf() ==> final(self).wf(),
    {
        match range {
            Some((start, end)) => {
                self.queries_text = replace_selection(&self.queries_text, start, end, pasted);
                Some(start + pasted.unicode_len())
            },
            None => {
                self.queries_text.append(pasted);
                None
            },
        }
    }

    /// The query editor was cleared. Gives the new place of the caret.
    pub fn clear_queries(&mut self) -> (caret: usize)
        ensures
            caret == 0,
            final(self)@ == (Screen { queries_text: Seq::empty(), ..old(self)@ }),
            old(self).wf() ==> final(self).wf(),
    {
        self.queries_text = String::new();
        0
    }

    /// A row of the results table was clicked: it is selected and, if there is a document, its
    /// page is to be rasterized and its highlights are to be shown.
    pub fn click_row(&mut self, index: usize) -> (request: Option<ParserRequest>)
        requires
            index < old(self)@.results.len(),
        ensures
            match old(self)@.file_path {
                Some(path) => {
                    &&& request == Some(
                        ParserRequest::FetchPage {
                            file_path: path,
                            page_index: page_index_of(
                                old(self)@.results[index as int].page_number,
                            ),
                            target_width_px: TARGET_WIDTH_PX,
                        },
                    )
                    &&& final(self)@ == (Screen {
                        selected_row_index: Some(index),
                        pending_scroll_target: Some(
                            old(self)@.results[index as int].target_highlights,
                        ),
                        ..old(self)@
                    })
                },
                None => {
                    &&& request is None
                    &&& final(self)@ == (Screen { selected_row_index: Some(index), ..old(self)@ })
                },
            },
            old(self).wf() ==> final(self).wf(),
    {
        self.selected_row_index = Some(index);
        match &self.file_path {
            Some(path) => {
                let row = &self.results[index];
                let mut boxes: Vec<BBox> = Vec::new();
                let mut i: usize = 0;
                while i < row.target_highlights.len()
                    invariant
                        i <= row.target_highlights@.len(),
                        boxes@ == row.target_highlights@.take(i as int),
                    decreases row.target_highlights.len() - i,
                {
                    boxes.push(row.target_highlights[i]);
                    i = i + 1;
                }
                assert(row.target_highlights@.take(i as int) == row.target_highlights@);
                let page_index: usize = if row.page_number > 0 {
                    row.page_number - 1
                } else {
                    0
                };
                let request = ParserRequest::FetchPage {
                    file_path: path.clone(),
                    page_index,
                    target_width_px: TARGET_WIDTH_PX,
                };
                self.pending_scroll_target = Some(boxes);
                Some(request)
            },
            None => None,
        }
    }

    /// The background worker answered. A rasterized page is to become a texture.
    pub fn receive(&mut self, response: ParserResponse) -> (upload: Option<PageUpload>)
        ensures
            match response {
                ParserResponse::PageImage {
                    file_path: _,
                    page_index,
                    rgba_buffer,
                    width_px,
                    height_px,
                    page_width_points,
                    page_height_points,
                } => {
                    &&& upload == Some(
                        PageUpload {
                            page_index,
                            rgba_buffer,
                            width_px,
                            height_px,
                            page_width_points,
                            page_height_points,
                        },
                    )
                    &&& final(self)@ == old(self)@
                },
                ParserResponse::DocumentIndexed { .. } => {
                    &&& upload is None
                    &&& final(self)@ == (Screen {
                        status_message: "Indexación espacial completada. Listo para búsqueda."@,
                        ..old(self)@
                    })
                },
                ParserResponse::Error(e) => {
                    &&& upload is None
                    &&& final(self)@ == (Screen {
                        status_message: "Error del motor: "@ + e@,
                        ..old(self)@
                    })
                },
            },
            old(self).wf() ==> final(self).wf(),
    {
        match response {
            ParserResponse::PageImage {
                file_path: _,
                page_index,
                rgba_buffer,
                width_px,
                height_px,
                page_width_points,
                page_height_points,
            } => Some(
                PageUpload {
                    page_index,
                    rgba_buffer,
                    width_px,
                    height_px,
                    page_width_points,
                    page_height_points,
                },
            ),
            ParserResponse::DocumentIndexed { .. } => {
                self.status_message =
                "Indexación espacial completada. Listo para búsqueda.".to_owned();
                None
            },
            ParserResponse::Error(e) => {
                let mut message = String::new();
                message.append("Error del motor: ");
                message.append(&e);
                self.status_message = message;
                None
            },
        }
    }

    /// A page became a texture: it is kept, and it is the one that is shown.
    pub fn show_page(&mut self, page_index: usize, page: PageRenderCache<T>)
        requires
            old(self).wf(),
        ensures
            final(self).wf(),
            final(self)@ == (Screen {
                pages: inserted(old(self)@.pages, old(self)@.capacity, page_index, page),
                active_page_index: Some(page_index),
                ..old(self)@
            }),
    {
        self.texture_cache.insert(page_index, page);
        self.active_page_index = Some(page_index);
    }

    /// The page that is shown, if it is still kept.
    pub fn active_page(&mut self) -> (page: Option<&PageRenderCache<T>>)
        requires
            old(self).wf(),
        ensures
            final(self).wf(),
            match page {
                Some(p) => {
                    &&& old(self)@.active_page_index matches Some(i) && page_of(
                        old(self)@.pages,
                        i,
                    ) == Some(*p)
                    &&& final(self)@ == (Screen {
                        pages: used(old(self)@.pages, old(self)@.active_page_index->0),
                        ..old(self)@
                    })
                },
                None => {
                    &&& old(self)@.active_page_index matches Some(i) ==> page_of(
                        old(self)@.pages,
                        i,
                    ) is None
                    &&& final(self)@ == old(self)@
                },
            },
    {
        match self.active_page_index {
            Some(page_index) => self.texture_cache.get(page_index),
            None => None,
        }
    }
}

/// What the background worker answers once the index of a document was built, or could not be, and
/// the bytes of the document, where they are kept for the pages to be shown: only a document that
/// was indexed is kept.
pub fn answer_ingestion(
    file_path: PathBuf,
    pdf_bytes: Vec<u8>,
    built: Result<SpatialIndex, String>,
) -> (r: (ParserResponse, Option<Vec<u8>>))
    ensures
        match built {
            Ok(index) => {
                &&& r.0 == (ParserResponse::DocumentIndexed { file_path, spatial_index: index })
                &&& r.1 == Some(pdf_bytes)
            },
            Err(e) => {
                &&& r.0 matches ParserResponse::Error(m) && m@ == "Index mapping failed: "@ + e@
                &&& r.1 is None
            },
        },
{
    match built {
        Ok(spatial_index) => (
            ParserResponse::DocumentIndexed { file_path, spatial_index },
            Some(pdf_bytes),
        ),
        Err(e) => {
            let mut message = String::new();
            message.append("Index mapping failed: ");
            message.append(&e);
            (ParserResponse::Error(message), None)
        },
    }
}

/// Pages are numbered from one and indexed from zero, so that the index of every page is one less
/// than its number.
pub proof fn law_index_of_a_page(page_number: usize)
    requires
        page_number >= 1,
    ensures
        page_index_of(page_number) + 1 == page_number,
{
}

} // verus!
