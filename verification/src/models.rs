//! The data that passes between extraction, search and display.
use compact_str::CompactString;
use std::path::PathBuf;
use vstd::prelude::*;

use crate::bridge::compact_chars;
use crate::single::Single;

verus! {

/// One place where a query was found.
#[derive(Debug, Clone)]
pub struct QueryMatch {
    pub query: CompactString,
    pub matches: bool,
    pub similarity_score: Single,
    pub prefix: CompactString,
    pub match_text: CompactString,
    pub suffix: CompactString,
    /// The indices of the matched characters in the original text.
    pub matched_indices: Vec<u32>,
    /// Where the text comes from.
    pub location: String,
}

/// What a [`QueryMatch`] says.
pub struct Found {
    pub query: Seq<char>,
    pub matches: bool,
    pub score: Single,
    pub prefix: Seq<char>,
    pub match_text: Seq<char>,
    pub suffix: Seq<char>,
    pub indices: Seq<u32>,
    pub location: Seq<char>,
}

impl View for QueryMatch {
    type V = Found;

    open spec fn view(&self) -> Found {
        Found {
            query: compact_chars(self.query),
            matches: self.matches,
            score: self.similarity_score,
            prefix: compact_chars(self.prefix),
            match_text: compact_chars(self.match_text),
            suffix: compact_chars(self.suffix),
            indices: self.matched_indices@,
            location: self.location@,
        }
    }
}

/// What the matches of a list say.
pub open spec fn found_all(matches: Seq<QueryMatch>) -> Seq<Found> {
    matches.map_values(|m: QueryMatch| m@)
}

/// A text to be searched.
#[derive(Debug, Clone)]
pub struct TextCandidate {
    pub text: String,
    pub normalized_text: String,
    /// For each normalized character the index of the original character it comes from.
    pub mapping: Vec<usize>,
    pub location: String,
}

/// Where in a document a text stands.
#[derive(Debug, Clone)]
pub enum StructuralLocation {
    /// A block on a page of a PDF.
    Pdf { page_number: u32, block_index: usize },
    /// A paragraph below a heading of a DOCX file.
    Docx { global_paragraph_index: usize, heading_context: String },
}

/// What a [`StructuralLocation`] says.
pub enum Located {
    Pdf { page_number: u32, block_index: usize },
    Docx { global_paragraph_index: usize, heading_context: Seq<char> },
}

impl View for StructuralLocation {
    type V = Located;

    open spec fn view(&self) -> Located {
        match self {
            StructuralLocation::Pdf { page_number, block_index } => Located::Pdf {
                page_number: *page_number,
                block_index: *block_index,
            },
            StructuralLocation::Docx { global_paragraph_index, heading_context } => Located::Docx {
                global_paragraph_index: *global_paragraph_index,
                heading_context: heading_context@,
            },
        }
    }
}

impl StructuralLocation {
    /// Copies the location.
    pub fn duplicate(&self) -> (copy: Self)
        ensures
            copy@ == self@,
    {
        match self {
            StructuralLocation::Pdf { page_number, block_index } => StructuralLocation::Pdf {
                page_number: *page_number,
                block_index: *block_index,
            },
            StructuralLocation::Docx { global_paragraph_index, heading_context } => {
                StructuralLocation::Docx {
                    global_paragraph_index: *global_paragraph_index,
                    heading_context: heading_context.clone(),
                }
            },
        }
    }
}

/// A physical bounding box on a PDF page, in PostScript points.
#[derive(Debug, Clone, Copy, PartialEq, Eq, Structural)]
pub struct BBox {
    pub left: Single,
    pub bottom: Single,
    pub right: Single,
    pub top: Single,
}

/// The physical location of a character.
#[derive(Debug, Clone, Copy, PartialEq, Eq, Structural)]
pub struct CharCoordinate {
    pub page_number: usize,
    pub bounds: BBox,
}

/// The searchable text of a document and the location of each of its characters.
#[derive(Debug, Clone)]
pub struct SpatialIndex {
    /// The flat, searchable text, in canonical decomposition.
    pub searchable_corpus: String,
    pub char_mappings: Vec<CharCoordinate>,
}

impl SpatialIndex {
    /// Every character of the text has a location.
    pub open spec fn wf(&self) -> bool {
        self.searchable_corpus@.len() == self.char_mappings@.len()
    }
}

/// What the background worker is asked for.
pub enum ParserRequest {
    /// Build the searchable index of a document that was just selected.
    IngestDocument { file_path: PathBuf },
    /// Rasterize the page of a result that was clicked. Pages are indexed from zero.
    FetchPage { file_path: PathBuf, page_index: usize, target_width_px: i32 },
}

/// What the background worker answers.
pub enum ParserResponse {
    /// The index of a document.
    DocumentIndexed { file_path: PathBuf, spatial_index: SpatialIndex },
    /// The pixels of a page and its dimensions.
    PageImage {
        file_path: PathBuf,
        page_index: usize,
        rgba_buffer: Vec<u8>,
        width_px: usize,
        height_px: usize,
        page_width_points: Single,
        page_height_points: Single,
    },
    Error(String),
}

} // verus!
