//! Structural document search.
//!
//! TraceText looks queries up in the text of PDF and DOCX documents and traces what it finds back
//! to the page and to the boxes of the matched characters. This library is its verified core:
//!
//! - [`extractor`] turns the glyphs of a document into searchable text, [`normalize`] makes that
//!   text insensitive to case, diacritics, [`punctuation`] and spacing;
//! - [`search`] finds exact occurrences and, with [`window`] and [`score`], what resembles a query;
//! - [`highlight`], [`spatial`] and [`results`] turn matches into marked text, boxes on pages and
//!   rows of a table, and [`report`] into reports;
//! - [`gui`], [`queries`], [`cache`] and [`palette`] hold the state and the decisions of the
//!   interface;
//! - [`single`], [`rounding`], [`arithmetic`], [`bounds`], [`coordinate`] and [`decimal`] are
//!   single-precision numbers; [`text`] and [`words`] are texts and lists of words;
//! - [`models`] is the data that passes between these, and [`bridge`] is what is taken from
//!   outside.
pub mod arithmetic;
pub mod bounds;
pub mod bridge;
pub mod cache;
pub mod coordinate;
pub mod decimal;
pub mod extractor;
pub mod gui;
pub mod highlight;
pub mod models;
pub mod normalize;
pub mod palette;
pub mod punctuation;
pub mod queries;
pub mod report;
pub mod results;
pub mod rounding;
pub mod score;
pub mod search;
pub mod single;
pub mod spatial;
pub mod text;
pub mod window;
pub mod words;
