//! From the glyphs of a document to its searchable text.
use vstd::prelude::*;
use vstd::string::StringExecFns;
use vstd::utf8::is_ascii_chars;

use crate::bridge::{ascii_lower, lowercase_text, nfd, nfd_chars};
use crate::models::{BBox, CharCoordinate, SpatialIndex, TextCandidate};
use crate::normalize::{law_mapping_follows_text, normalized_chars, normalized_origins};
use crate::search::{
    candidate_hits, candidate_reports, law_hits_are_apart, StructuralSearchEngine,
};
use crate::spatial::{lemma_located_is_boxed, marked_boxes};
use crate::text::{chars_of, same_chars};

verus! {

/// The kinds of documents that can be searched.
#[derive(Debug, Clone, Copy, PartialEq, Eq, Structural)]
pub enum DocumentFormat {
    Pdf,
    Docx,
}

/// A file extension in lower case.
pub open spec fn lower_extension(extension: Seq<char>) -> Seq<char> {
    if is_ascii_chars(extension) {
        extension.map_values(|c: char| ascii_lower(c))
    } else {
        lowercase_text(extension)
    }
}

/// The format that a lowercase file extension stands for.
pub open spec fn known_format(extension: Seq<char>) -> Option<DocumentFormat> {
    if extension == "pdf"@ {
        Some(DocumentFormat::Pdf)
    } else if extension == "docx"@ {
        Some(DocumentFormat::Docx)
    } else {
        None
    }
}

/// A glyph on a page: the text that it stands for and the box that it fills.
pub struct Glyph {
    pub text: String,
    pub bounds: BBox,
}

/// What a glyph contributes to the searchable text: the canonical decomposition of its text. ASCII
/// text does not decompose.
pub open spec fn glyph_chars(glyph: Glyph) -> Seq<char> {
    if is_ascii_chars(glyph.text@) {
        glyph.text@
    } else {
        nfd_chars(glyph.text@)
    }
}

/// The searchable text of the first `n` glyphs of a page.
pub open spec fn page_chars(glyphs: Seq<Glyph>, n: nat) -> Seq<char>
    decreases n,
{
    if n == 0 {
        Seq::empty()
    } else {
        page_chars(glyphs, (n - 1) as nat) + glyph_chars(glyphs[n - 1])
    }
}

/// The locations of the characters of a glyph: all have the box of the glyph.
pub open spec fn glyph_coords(glyph: Glyph, page_number: usize) -> Seq<CharCoordinate> {
    Seq::new(
        glyph_chars(glyph).len(),
        |i: int| CharCoordinate { page_number, bounds: glyph.bounds },
    )
}

/// The locations of the characters of the first `n` glyphs of a page.
pub open spec fn page_coords(glyphs: Seq<Glyph>, page_number: usize, n: nat) -> Seq<CharCoordinate>
    decreases n,
{
    if n == 0 {
        Seq::empty()
    } else {
        page_coords(glyphs, page_number, (n - 1) as nat) + glyph_coords(glyphs[n - 1], page_number)
    }
}

/// The searchable text of the first `n` pages.
pub open spec fn corpus(pages: Seq<Vec<Glyph>>, n: nat) -> Seq<char>
    decreases n,
{
    if n == 0 {
        Seq::empty()
    } else {
        corpus(pages, (n - 1) as nat) + page_chars(pages[n - 1]@, pages[n - 1]@.len())
    }
}

/// The locations of the characters of the first `n` pages, which are numbered from one.
pub open spec fn corpus_coords(pages: Seq<Vec<Glyph>>, n: nat) -> Seq<CharCoordinate>
    decreases n,
{
    if n == 0 {
        Seq::empty()
    } else {
        corpus_coords(pages, (n - 1) as nat) + page_coords(
            pages[n - 1]@,
            n as usize,
            pages[n - 1]@.len(),
        )
    }
}

/// What remains to be done to get the PDF of a document.
pub enum IngestStep {
    /// The bytes are those of a DOCX file, which has to be converted.
    Convert(Vec<u8>),
    /// The bytes are those of a PDF.
    Done(Vec<u8>),
    Failed(String),
}

/// Turns documents into searchable text.
pub struct DocumentExtractor;

impl DocumentExtractor {
    /// Tells the format of a document by the extension of its file name, whatever its case.
    pub fn ingest_format(&self, extension: Option<&str>) -> (r: Result<DocumentFormat, String>)
        ensures
            ({
                let lower = match extension {
                    Some(e) => lower_extension(e@),
                    None => Seq::empty(),
                };
                match r {
                    Ok(format) => known_format(lower) == Some(format),
                    Err(message) => known_format(lower) is None && message@
                        == "Unsupported file format: "@ + lower
                        + ". Only PDF and DOCX are supported."@,
                }
            }),
    {
        let lower = match extension {
            Some(e) => e.to_lowercase(),
            None => String::new(),
        };
        match format_of(&lower) {
            Some(format) => Ok(format),
            None => {
                let mut message = String::new();
                message.append("Unsupported file format: ");
                message.append(&lower);
                message.append(". Only PDF and DOCX are supported.");
                Err(message)
            },
        }
    }

    /// Decides what to do with what was read of a file. Native PDFs are taken as they are, while
    /// DOCX files are to be converted.
    pub fn ingest_to_pdf_bytes(
        &self,
        format: DocumentFormat,
        read: Result<Vec<u8>, String>,
    ) -> (step: IngestStep)
        ensures
            match (format, read) {
                (DocumentFormat::Pdf, Ok(bytes)) => step matches IngestStep::Done(b) && b@
                    == bytes@,
                (DocumentFormat::Docx, Ok(bytes)) => step matches IngestStep::Convert(b) && b@
                    == bytes@,
                (DocumentFormat::Pdf, Err(e)) => step matches IngestStep::Failed(m) && m@
                    == "Failed to read native PDF file: "@ + e@,
                (DocumentFormat::Docx, Err(e)) => step matches IngestStep::Failed(m) && m@
                    == "Failed to read DOCX file: "@ + e@,
            },
    {
        match read {
            Ok(bytes) => match format {
                DocumentFormat::Pdf => IngestStep::Done(bytes),
                DocumentFormat::Docx => IngestStep::Convert(bytes),
            },
            Err(e) => {
                let mut message = String::new();
                match format {
                    DocumentFormat::Pdf => message.append("Failed to read native PDF file: "),
                    DocumentFormat::Docx => message.append("Failed to read DOCX file: "),
                }
                message.append(&e);
                IngestStep::Failed(message)
            },
        }
    }

    /// Decides what to do with the result of a conversion.
    pub fn finish_conversion(&self, converted: Result<Vec<u8>, String>) -> (step: IngestStep)
        ensures
            match converted {
                Ok(bytes) => step matches IngestStep::Done(b) && b@ == bytes@,
                Err(e) => step matches IngestStep::Failed(m) && m@
                    == "Failed to convert DOCX to PDF bytes via libreoffice-pure: "@ + e@,
            },
    {
        match converted {
            Ok(bytes) => IngestStep::Done(bytes),
            Err(e) => {
                let mut message = String::new();
                message.append("Failed to convert DOCX to PDF bytes via libreoffice-pure: ");
                message.append(&e);
                IngestStep::Failed(message)
            },
        }
    }

    /// Builds the searchable text of a document and the mapping of its characters to physical
    /// boxes, from the glyphs of its pages.
    pub fn build_spatial_index(&self, pages: &[Vec<Glyph>]) -> (index: SpatialIndex)
        ensures
            index.searchable_corpus@ == corpus(pages@, pages@.len()),
            index.char_mappings@ == corpus_coords(pages@, pages@.len()),
            index.wf(),
    {
        let mut searchable_corpus = String::new();
        let mut char_mappings: Vec<CharCoordinate> = Vec::new();
        let mut i: usize = 0;
        while i < pages.len()
            invariant
                i <= pages@.len(),
                searchable_corpus@ == corpus(pages@, i as nat),
                char_mappings@ == corpus_coords(pages@, i as nat),
                searchable_corpus@.len() == char_mappings@.len(),
            decreases pages.len() - i,
        {
            add_page(&pages[i], i + 1, &mut searchable_corpus, &mut char_mappings);
            i = i + 1;
        }
        SpatialIndex { searchable_corpus, char_mappings }
    }

    /// Packages the text of a document as a candidate for the search engine, beside its spatial
    /// index. The entire text is treated as one continuous block.
    pub fn extract_unified_pipeline(&self, pages: &[Vec<Glyph>], path: &str) -> (r: (
        Vec<TextCandidate>,
        SpatialIndex,
    ))
        ensures
            r.0@.len() == 1,
            extracted(r.0@[0], r.1),
            r.0@[0].location@ == path@,
            r.1.searchable_corpus@ == corpus(pages@, pages@.len()),
            r.1.char_mappings@ == corpus_coords(pages@, pages@.len()),
    {
        let spatial_index = self.build_spatial_index(pages);
        let candidate = package(&spatial_index, path);
        let mut candidates: Vec<TextCandidate> = Vec::new();
        candidates.push(candidate);
        (candidates, spatial_index)
    }
}

/// The candidate holds the text of the index, normalized.
pub open spec fn extracted(candidate: TextCandidate, index: SpatialIndex) -> bool {
    &&& index.wf()
    &&& candidate.text@ == index.searchable_corpus@
    &&& candidate.normalized_text@ == normalized_chars(candidate.text@)
    &&& candidate.mapping@ == normalized_origins(candidate.text@)
}

/// Packages the text of an index as a candidate for the search engine.
pub fn package(spatial_index: &SpatialIndex, path: &str) -> (candidate: TextCandidate)
    ensures
        candidate.text@ == spatial_index.searchable_corpus@,
        candidate.normalized_text@ == normalized_chars(candidate.text@),
        candidate.mapping@ == normalized_origins(candidate.text@),
        candidate.location@ == path@,
{
    let text = spatial_index.searchable_corpus.clone();
    let (normalized_text, mapping) = StructuralSearchEngine::normalize_text_with_mapping(&text);
    TextCandidate { text, normalized_text, mapping, location: path.to_owned() }
}

/// Tells the format that a lowercase extension stands for.
pub fn format_of(extension: &str) -> (format: Option<DocumentFormat>)
    ensures
        format == known_format(extension@),
{
    if same_chars(&chars_of(extension), &chars_of("pdf")) {
        Some(DocumentFormat::Pdf)
    } else if same_chars(&chars_of(extension), &chars_of("docx")) {
        Some(DocumentFormat::Docx)
    } else {
        None
    }
}

/// Adds the glyphs of a page.
fn add_page(
    glyphs: &[Glyph],
    page_number: usize,
    text: &mut String,
    coords: &mut Vec<CharCoordinate>,
)
    requires
        old(text)@.len() == old(coords)@.len(),
    ensures
        final(text)@ == old(text)@ + page_chars(glyphs@, glyphs@.len()),
        final(coords)@ == old(coords)@ + page_coords(glyphs@, page_number, glyphs@.len()),
        final(text)@.len() == final(coords)@.len(),
{
    let ghost text_before = text@;
    let ghost coords_before = coords@;
    let mut i: usize = 0;
    while i < glyphs.len()
        invariant
            i <= glyphs@.len(),
            text@ == text_before + page_chars(glyphs@, i as nat),
            coords@ == coords_before + page_coords(glyphs@, page_number, i as nat),
            text@.len() == coords@.len(),
        decreases glyphs.len() - i,
    {
        let glyph = &glyphs[i];
        let chars = chars_of(&nfd(&glyph.text));
        let ghost text_mid = text@;
        let ghost coords_mid = coords@;
        let mut j: usize = 0;
        while j < chars.len()
            invariant
                j <= chars@.len(),
                text@ == text_mid + chars@.take(j as int),
                coords@.len() == coords_mid.len() + j,
                forall|k: int| 0 <= k < coords_mid.len() ==> coords@[k] == coords_mid[k],
                forall|k: int|
                    coords_mid.len() <= k < coords@.len() ==> coords@[k] == (CharCoordinate {
                        page_number,
                        bounds: glyph.bounds,
                    }),
            decreases chars.len() - j,
        {
            text.push(chars[j]);
            coords.push(CharCoordinate { page_number, bounds: glyph.bounds });
            j = j + 1;
        }
        proof {
            assert(coords@ == coords_mid + glyph_coords(*glyph, page_number));
        }
        i = i + 1;
    }
}

/// Every match in an extracted document can be shown: all its characters have a location, and at
/// least one box marks them.
pub proof fn law_matches_are_located(
    query: Seq<char>,
    q: Seq<char>,
    candidate: TextCandidate,
    index: SpatialIndex,
    i: int,
)
    requires
        extracted(candidate, index),
        index.searchable_corpus@.len() <= u32::MAX,
        q.len() > 0,
        0 <= i < candidate_reports(query, q, candidate).len(),
    ensures
        ({
            let indices = candidate_reports(query, q, candidate)[i].indices;
            &&& indices.len() > 0
            &&& forall|j: int|
                0 <= j < indices.len() ==> #[trigger] indices[j] < index.char_mappings@.len()
            &&& marked_boxes(indices, index.char_mappings@).len() > 0
        }),
{
    let indices = candidate_reports(query, q, candidate)[i].indices;
    let coords = index.char_mappings@;
    law_hits_are_apart(query, q, candidate);
    law_mapping_follows_text(candidate.text@);
    lemma_located_is_boxed(indices, coords, indices.len());
}

/// The pages of the locations are the pages of the document, numbered from one, in their order.
pub proof fn law_pages_are_numbered_from_one(pages: Seq<Vec<Glyph>>, n: nat)
    requires
        n <= pages.len() <= usize::MAX,
    ensures
        corpus(pages, n).len() == corpus_coords(pages, n).len(),
        forall|i: int|
            0 <= i < corpus_coords(pages, n).len() ==> 1 <= (#[trigger] corpus_coords(
                pages,
                n,
            )[i]).page_number <= n,
        forall|i: int, j: int|
            0 <= i <= j < corpus_coords(pages, n).len() ==> (#[trigger] corpus_coords(
                pages,
                n,
            )[i]).page_number <= (#[trigger] corpus_coords(pages, n)[j]).page_number,
    decreases n,
{
    if n > 0 {
        let m = (n - 1) as nat;
        law_pages_are_numbered_from_one(pages, m);
        lemma_page_coords(pages[m as int]@, n as usize, pages[m as int]@.len());
    }
}

proof fn lemma_page_coords(glyphs: Seq<Glyph>, page_number: usize, n: nat)
    ensures
        page_chars(glyphs, n).len() == page_coords(glyphs, page_number, n).len(),
        forall|i: int|
            0 <= i < page_coords(glyphs, page_number, n).len() ==> (#[trigger] page_coords(
                glyphs,
                page_number,
                n,
            )[i]).page_number == page_number,
    decreases n,
{
    if n > 0 {
        lemma_page_coords(glyphs, page_number, (n - 1) as nat);
    }
}

proof fn lemma_page_is_glyphs(glyphs: Seq<Glyph>, n: nat)
    requires
        n <= glyphs.len(),
        forall|i: int| 0 <= i < glyphs.len() ==> is_ascii_chars((#[trigger] glyphs[i]).text@),
    ensures
        page_chars(glyphs, n) == glyphs.map_values(|g: Glyph| g.text@).take(n as int).flatten(),
    decreases n,
{
    let all = glyphs.map_values(|g: Glyph| g.text@);
    if n == 0 {
        assert(all.take(0) == Seq::<Seq<char>>::empty());
        all.take(0).lemma_flatten_and_flatten_alt_are_equivalent();
    } else {
        let m = (n - 1) as nat;
        lemma_page_is_glyphs(glyphs, m);
        assert(all.take(n as int).drop_last() == all.take(m as int));
        all.take(n as int).lemma_flatten_and_flatten_alt_are_equivalent();
        all.take(m as int).lemma_flatten_and_flatten_alt_are_equivalent();
        assert(is_ascii_chars(glyphs[m as int].text@));
    }
}

/// Nothing is lost in extraction, and nothing is added: where all glyphs have ASCII text, the
/// searchable text of a page is the text of its glyphs, one behind the other.
pub proof fn law_page_text_is_that_of_its_glyphs(glyphs: Seq<Glyph>)
    requires
        forall|i: int| 0 <= i < glyphs.len() ==> is_ascii_chars((#[trigger] glyphs[i]).text@),
    ensures
        page_chars(glyphs, glyphs.len()) == glyphs.map_values(|g: Glyph| g.text@).flatten(),
{
    lemma_page_is_glyphs(glyphs, glyphs.len());
    let all = glyphs.map_values(|g: Glyph| g.text@);
    assert(all.take(glyphs.len() as int) == all);
}

proof fn lemma_corpus_is_glyphs(pages: Seq<Vec<Glyph>>, n: nat)
    requires
        n <= pages.len(),
        forall|p: int, i: int|
            0 <= p < pages.len() && 0 <= i < pages[p]@.len() ==> is_ascii_chars(
                (#[trigger] pages[p]@[i]).text@,
            ),
    ensures
        corpus(pages, n) == pages.map_values(
            |page: Vec<Glyph>| page@.map_values(|g: Glyph| g.text@).flatten(),
        ).take(n as int).flatten(),
    decreases n,
{
    let all = pages.map_values(
        |page: Vec<Glyph>| page@.map_values(|g: Glyph| g.text@).flatten(),
    );
    if n == 0 {
        assert(all.take(0) == Seq::<Seq<char>>::empty());
        all.take(0).lemma_flatten_and_flatten_alt_are_equivalent();
    } else {
        let m = (n - 1) as nat;
        lemma_corpus_is_glyphs(pages, m);
        law_page_text_is_that_of_its_glyphs(pages[m as int]@);
        assert(all.take(n as int).drop_last() == all.take(m as int));
        all.take(n as int).lemma_flatten_and_flatten_alt_are_equivalent();
        all.take(m as int).lemma_flatten_and_flatten_alt_are_equivalent();
    }
}

/// Nothing is lost in extraction, and nothing is added: where all glyphs have ASCII text, the
/// searchable text of a document is the text of all glyphs of all pages, one behind the other,
/// and it has as many locations as characters.
pub proof fn law_document_text_is_that_of_its_glyphs(pages: Seq<Vec<Glyph>>)
    requires
        pages.len() <= usize::MAX,
        forall|p: int, i: int|
            0 <= p < pages.len() && 0 <= i < pages[p]@.len() ==> is_ascii_chars(
                (#[trigger] pages[p]@[i]).text@,
            ),
    ensures
        corpus(pages, pages.len()) == pages.map_values(
            |page: Vec<Glyph>| page@.map_values(|g: Glyph| g.text@).flatten(),
        ).flatten(),
        corpus_coords(pages, pages.len()).len() == corpus(pages, pages.len()).len(),
{
    lemma_corpus_is_glyphs(pages, pages.len());
    law_pages_are_numbered_from_one(pages, pages.len());
    let all = pages.map_values(
        |page: Vec<Glyph>| page@.map_values(|g: Glyph| g.text@).flatten(),
    );
    assert(all.take(pages.len() as int) == all);
}

/// One more glyph on a page adds its text behind that of the others: its own characters where they
/// are ASCII, else their canonical decomposition. Each of them has the box of the glyph and the
/// number of the page.
pub proof fn law_glyph_adds_its_text(glyphs: Seq<Glyph>, glyph: Glyph, page_number: usize)
    ensures
        ({
            let added = if is_ascii_chars(glyph.text@) {
                glyph.text@
            } else {
                nfd_chars(glyph.text@)
            };
            let more = glyphs.push(glyph);
            &&& page_chars(more, more.len()) == page_chars(glyphs, glyphs.len()) + added
            &&& page_coords(more, page_number, more.len()) == page_coords(
                glyphs,
                page_number,
                glyphs.len(),
            ) + Seq::new(
                added.len(),
                |i: int| CharCoordinate { page_number, bounds: glyph.bounds },
            )
        }),
{
    let more = glyphs.push(glyph);
    lemma_first_glyphs(glyphs, glyph, page_number, glyphs.len());
    assert(more[glyphs.len() as int] == glyph);
}

proof fn lemma_first_glyphs(glyphs: Seq<Glyph>, glyph: Glyph, page_number: usize, n: nat)
    requires
        n <= glyphs.len(),
    ensures
        page_chars(glyphs.push(glyph), n) == page_chars(glyphs, n),
        page_coords(glyphs.push(glyph), page_number, n) == page_coords(glyphs, page_number, n),
    decreases n,
{
    if n > 0 {
        lemma_first_glyphs(glyphs, glyph, page_number, (n - 1) as nat);
    }
}

/// One more page adds its text and its locations behind those of the others, and its number is
/// the number of pages. The glyphs of a page begin with nothing.
pub proof fn law_page_adds_its_text(pages: Seq<Vec<Glyph>>, page: Vec<Glyph>)
    requires
        pages.len() < usize::MAX,
    ensures
        ({
            let more = pages.push(page);
            &&& corpus(more, more.len()) == corpus(pages, pages.len()) + page_chars(
                page@,
                page@.len(),
            )
            &&& corpus_coords(more, more.len()) == corpus_coords(pages, pages.len()) + page_coords(
                page@,
                (pages.len() + 1) as usize,
                page@.len(),
            )
        }),
        corpus(Seq::<Vec<Glyph>>::empty(), 0).len() == 0,
        page_chars(Seq::<Glyph>::empty(), 0).len() == 0,
{
    let more = pages.push(page);
    lemma_first_pages(pages, page, pages.len());
    assert(more[pages.len() as int] == page);
}

proof fn lemma_first_pages(pages: Seq<Vec<Glyph>>, page: Vec<Glyph>, n: nat)
    requires
        n <= pages.len(),
    ensures
        corpus(pages.push(page), n) == corpus(pages, n),
        corpus_coords(pages.push(page), n) == corpus_coords(pages, n),
    decreases n,
{
    if n > 0 {
        lemma_first_pages(pages, page, (n - 1) as nat);
    }
}

/// The format is told by the ASCII extension, whatever its case, and by nothing else.
pub proof fn law_extension_tells_the_format(extension: Seq<char>)
    requires
        is_ascii_chars(extension),
    ensures
        ({
            let e = extension;
            let format = known_format(lower_extension(extension));
            &&& format == Some(DocumentFormat::Pdf) <==> e.len() == 3 && (e[0] == 'p' || e[0]
                == 'P') && (e[1] == 'd' || e[1] == 'D') && (e[2] == 'f' || e[2] == 'F')
            &&& format == Some(DocumentFormat::Docx) <==> e.len() == 4 && (e[0] == 'd' || e[0]
                == 'D') && (e[1] == 'o' || e[1] == 'O') && (e[2] == 'c' || e[2] == 'C') && (e[3]
                == 'x' || e[3] == 'X')
        }),
{
    reveal_strlit("pdf");
    reveal_strlit("docx");
    let e = extension;
    let lower = lower_extension(e);
    assert(lower.len() == e.len());
    assert(forall|i: int| 0 <= i < e.len() ==> lower[i] == ascii_lower(#[trigger] e[i]));
    if e.len() == 3 && lower[0] == 'p' && lower[1] == 'd' && lower[2] == 'f' {
        assert(lower == "pdf"@);
    }
    if e.len() == 4 && lower[0] == 'd' && lower[1] == 'o' && lower[2] == 'c' && lower[3] == 'x' {
        assert(lower == "docx"@);
    }
    if lower == "pdf"@ {
        assert(lower[0] == 'p' && lower[1] == 'd' && lower[2] == 'f');
    }
    if lower == "docx"@ {
        assert(lower[0] == 'd' && lower[1] == 'o' && lower[2] == 'c' && lower[3] == 'x');
    }
}

} // verus!
