//! Reports of the results: tab-separated text for the clipboard and the cells of a spreadsheet.
use vstd::prelude::*;
use vstd::string::StringExecFns;

use crate::decimal::{
    decimal, decimal_text, hundredths, lemma_hundredths, push_decimal, two_decimals,
};
use crate::results::{all_rows, row_text, DisplayRow, Row};
use crate::single::Single;

verus! {

/// The first line of the clipboard text.
pub open spec fn tsv_header() -> Seq<char> {
    "Consulta\tPuntuación\tTexto Original Coincidente\tPágina\n"@
}

/// The line of a row: query, score, text and page, separated by tabs.
pub open spec fn tsv_line(row: Row) -> Seq<char> {
    row.query + "\t"@ + two_decimals(row.score) + "\t"@ + row_text(row) + "\t"@ + decimal(
        row.page_number as int,
    ) + "\n"@
}

/// The lines of the first `n` rows, below the header.
pub open spec fn tsv(rows: Seq<Row>, n: nat) -> Seq<char>
    decreases n,
{
    if n == 0 {
        tsv_header()
    } else {
        tsv(rows, (n - 1) as nat) + tsv_line(rows[n - 1])
    }
}

/// Formats the results as tab-separated text.
pub fn format_clipboard_tsv(results: &[DisplayRow]) -> (text: String)
    ensures
        text@ == tsv(all_rows(results@), results@.len()),
{
    let mut text = String::new();
    text.append("Consulta\tPuntuación\tTexto Original Coincidente\tPágina\n");
    let mut i: usize = 0;
    while i < results.len()
        invariant
            i <= results@.len(),
            text@ == tsv(all_rows(results@), i as nat),
        decreases results.len() - i,
    {
        let r = &results[i];
        text.append(&r.query);
        text.append("\t");
        text.append(&r.score.format());
        text.append("\t");
        text.append(&r.full_text());
        text.append("\t");
        push_decimal(&mut text, r.page_number as u128);
        text.append("\n");
        i = i + 1;
    }
    text
}

/// What is written into a cell of a spreadsheet.
pub enum CellValue {
    Text(String),
    Number(Single),
}

/// What a [`CellValue`] says.
pub enum CellContent {
    Text(Seq<char>),
    Number(Single),
}

impl View for CellValue {
    type V = CellContent;

    open spec fn view(&self) -> CellContent {
        match self {
            CellValue::Text(text) => CellContent::Text(text@),
            CellValue::Number(number) => CellContent::Number(*number),
        }
    }
}

/// A cell of a spreadsheet, by its row and its column.
pub struct Cell {
    pub row: u32,
    pub column: u16,
    pub value: CellValue,
}

/// What a [`Cell`] says.
pub struct CellEntry {
    pub row: u32,
    pub column: u16,
    pub content: CellContent,
}

impl View for Cell {
    type V = CellEntry;

    open spec fn view(&self) -> CellEntry {
        CellEntry { row: self.row, column: self.column, content: self.value@ }
    }
}

/// What the cells of a list say.
pub open spec fn all_entries(cells: Seq<Cell>) -> Seq<CellEntry> {
    cells.map_values(|c: Cell| c@)
}

/// The cells of the header.
pub open spec fn header_entries() -> Seq<CellEntry> {
    seq![
        CellEntry { row: 0, column: 0, content: CellContent::Text("Consulta"@) },
        CellEntry { row: 0, column: 1, content: CellContent::Text("Puntuación"@) },
        CellEntry { row: 0, column: 2, content: CellContent::Text("Texto Original Coincidente"@) },
        CellEntry { row: 0, column: 3, content: CellContent::Text("Página"@) },
    ]
}

/// The cells of a result on line `line`.
pub open spec fn row_entries(row: Row, line: u32) -> Seq<CellEntry> {
    seq![
        CellEntry { row: line, column: 0, content: CellContent::Text(row.query) },
        CellEntry { row: line, column: 1, content: CellContent::Number(row.score) },
        CellEntry { row: line, column: 2, content: CellContent::Text(row_text(row)) },
        CellEntry {
            row: line,
            column: 3,
            content: CellContent::Text(decimal(row.page_number as int)),
        },
    ]
}

/// The cells of the header and of the first `n` results, in the order in which they are written.
pub open spec fn sheet(rows: Seq<Row>, n: nat) -> Seq<CellEntry>
    decreases n,
{
    if n == 0 {
        header_entries()
    } else {
        sheet(rows, (n - 1) as nat) + row_entries(rows[n - 1], n as u32)
    }
}

fn text_cell(row: u32, column: u16, text: String) -> (cell: Cell)
    ensures
        cell@ == (CellEntry { row, column, content: CellContent::Text(text@) }),
{
    Cell { row, column, value: CellValue::Text(text) }
}

fn title(column: u16, text: &str) -> (cell: Cell)
    ensures
        cell@ == (CellEntry { row: 0, column, content: CellContent::Text(text@) }),
{
    text_cell(0, column, text.to_owned())
}

/// Lays the results out as the cells of an Excel sheet, in the order in which they are to be
/// written.
pub fn export_to_excel(results: &[DisplayRow]) -> (cells: Vec<Cell>)
    ensures
        all_entries(cells@) == sheet(all_rows(results@), results@.len()),
{
    let mut cells: Vec<Cell> = Vec::new();
    cells.push(title(0, "Consulta"));
    cells.push(title(1, "Puntuación"));
    cells.push(title(2, "Texto Original Coincidente"));
    cells.push(title(3, "Página"));
    let mut i: usize = 0;
    while i < results.len()
        invariant
            i <= results@.len(),
            all_entries(cells@) == sheet(all_rows(results@), i as nat),
        decreases results.len() - i,
    {
        let row = &results[i];
        let r: u32 = #[verifier::truncate] ((i + 1) as u32);
        cells.push(text_cell(r, 0, row.query.clone()));
        cells.push(Cell { row: r, column: 1, value: CellValue::Number(row.score) });
        cells.push(text_cell(r, 2, row.full_text()));
        cells.push(text_cell(r, 3, decimal_text(row.page_number)));
        i = i + 1;
    }
    cells
}

/// How often a character stands in a text.
pub open spec fn tally(text: Seq<char>, c: char) -> nat {
    text.filter(|x: char| x == c).len()
}

proof fn lemma_tally_sum(a: Seq<char>, b: Seq<char>, c: char)
    ensures
        tally(a + b, c) == tally(a, c) + tally(b, c),
{
    Seq::filter_distributes_over_add(a, b, |x: char| x == c);
}

proof fn lemma_tally_none(text: Seq<char>, c: char)
    requires
        !text.contains(c),
    ensures
        tally(text, c) == 0,
    decreases text.len(),
{
    reveal(Seq::filter);
    if text.len() > 0 {
        lemma_tally_none(text.drop_last(), c);
    }
}

proof fn lemma_decimal_has_digits(n: int)
    requires
        n >= 0,
    ensures
        !decimal(n).contains('\t'),
        !decimal(n).contains('\n'),
    decreases n,
{
    if n >= 10 {
        lemma_decimal_has_digits(n / 10);
    }
}

proof fn lemma_score_has_no_breaks(score: Single)
    ensures
        !two_decimals(score).contains('\t'),
        !two_decimals(score).contains('\n'),
{
    if score.is_finite() {
        lemma_hundredths(score);
        let h = hundredths(score);
        lemma_decimal_has_digits(h / 100);
    }
}

/// The row fits on a line: no field has a tab or a line break in it.
pub open spec fn tidy(row: Row) -> bool {
    &&& !row.query.contains('\t')
    &&& !row.query.contains('\n')
    &&& !row_text(row).contains('\t')
    &&& !row_text(row).contains('\n')
}

proof fn lemma_line(row: Row)
    requires
        tidy(row),
    ensures
        tally(tsv_line(row), '\t') == 3,
        tally(tsv_line(row), '\n') == 1,
{
    let score = two_decimals(row.score);
    let page = decimal(row.page_number as int);
    lemma_score_has_no_breaks(row.score);
    lemma_decimal_has_digits(row.page_number as int);
    lemma_breaks(row.query, score, row_text(row), page, '\t');
    lemma_breaks(row.query, score, row_text(row), page, '\n');
    lemma_single_tallies();
}

proof fn lemma_breaks(a: Seq<char>, b: Seq<char>, c: Seq<char>, d: Seq<char>, x: char)
    requires
        !a.contains(x),
        !b.contains(x),
        !c.contains(x),
        !d.contains(x),
    ensures
        tally(a + "\t"@ + b + "\t"@ + c + "\t"@ + d + "\n"@, x) == 3 * tally("\t"@, x) + tally(
            "\n"@,
            x,
        ),
{
    let t = "\t"@;
    lemma_tally_none(a, x);
    lemma_tally_none(b, x);
    lemma_tally_none(c, x);
    lemma_tally_none(d, x);
    lemma_tally_sum(a, t, x);
    lemma_tally_sum(a + t, b, x);
    lemma_tally_sum(a + t + b, t, x);
    lemma_tally_sum(a + t + b + t, c, x);
    lemma_tally_sum(a + t + b + t + c, t, x);
    lemma_tally_sum(a + t + b + t + c + t, d, x);
    lemma_tally_sum(a + t + b + t + c + t + d, "\n"@, x);
}

proof fn lemma_single_tallies()
    ensures
        tally("\t"@, '\t') == 1,
        tally("\t"@, '\n') == 0,
        tally("\n"@, '\t') == 0,
        tally("\n"@, '\n') == 1,
{
    reveal_strlit("\t");
    reveal_strlit("\n");
    reveal_with_fuel(Seq::filter, 2);
}

/// The header has four titles on one line.
proof fn lemma_header()
    ensures
        tally(tsv_header(), '\t') == 3,
        tally(tsv_header(), '\n') == 1,
{
    reveal_strlit("Consulta\tPuntuación\tTexto Original Coincidente\tPágina\n");
    let h = tsv_header();
    let a = h.subrange(0, 8);
    let b = h.subrange(9, 19);
    let c = h.subrange(20, 46);
    let d = h.subrange(47, 53);
    reveal_strlit("\t");
    reveal_strlit("\n");
    assert(h == a + "\t"@ + b + "\t"@ + c + "\t"@ + d + "\n"@);
    lemma_breaks(a, b, c, d, '\t');
    lemma_breaks(a, b, c, d, '\n');
    lemma_single_tallies();
}

/// The clipboard text of tidy rows has one line for the header and one for each row, and each
/// line has four fields.
pub proof fn law_clipboard_text_is_clean(rows: Seq<Row>, n: nat)
    requires
        n <= rows.len(),
        forall|i: int| 0 <= i < rows.len() ==> tidy(#[trigger] rows[i]),
    ensures
        tally(tsv(rows, n), '\n') == n + 1,
        tally(tsv(rows, n), '\t') == 3 * (n + 1),
    decreases n,
{
    if n == 0 {
        lemma_header();
    } else {
        let m = (n - 1) as nat;
        law_clipboard_text_is_clean(rows, m);
        lemma_line(rows[m as int]);
        lemma_tally_sum(tsv(rows, m), tsv_line(rows[m as int]), '\n');
        lemma_tally_sum(tsv(rows, m), tsv_line(rows[m as int]), '\t');
    }
}

proof fn lemma_sheet_len(rows: Seq<Row>, n: nat)
    ensures
        sheet(rows, n).len() == 4 * (n + 1),
    decreases n,
{
    if n > 0 {
        lemma_sheet_len(rows, (n - 1) as nat);
    }
}

/// The sheet has four cells on the line of the header and four for each result, on the line below
/// the one before.
pub proof fn law_sheet_has_a_line_per_result(rows: Seq<Row>, n: nat, i: int)
    requires
        0 <= i < n <= rows.len(),
    ensures
        sheet(rows, n).len() == 4 * (n + 1),
        sheet(rows, n).subrange(4 * (i + 1), 4 * (i + 2)) == row_entries(
            rows[i],
            (i + 1) as u32,
        ),
    decreases n,
{
    let m = (n - 1) as nat;
    lemma_sheet_len(rows, m);
    lemma_sheet_len(rows, n);
    if i < m {
        law_sheet_has_a_line_per_result(rows, m, i);
    }
}

/// One more row adds one more line to the clipboard text, with the query, the score with two
/// decimals, the text of the row and the page, and tabs between them. Without rows there is only
/// the line of the titles.
pub proof fn law_row_adds_its_line(rows: Seq<Row>, row: Row)
    ensures
        tsv(rows.push(row), rows.len() + 1) == tsv(rows, rows.len()) + row.query + seq!['\t']
            + two_decimals(row.score) + seq!['\t'] + row_text(row) + seq!['\t'] + decimal(
            row.page_number as int,
        ) + seq!['\n'],
        tsv(Seq::empty(), 0) == "Consulta\tPuntuación\tTexto Original Coincidente\tPágina\n"@,
{
    reveal_strlit("\t");
    reveal_strlit("\n");
    assert("\t"@ == seq!['\t']);
    assert("\n"@ == seq!['\n']);
    lemma_first_lines(rows, row, rows.len());
    let more = rows.push(row);
    assert(more[rows.len() as int] == row);
    assert(tsv(more, rows.len() + 1) == tsv(rows, rows.len()) + tsv_line(row));
    assert(tsv(rows, rows.len()) + tsv_line(row) == tsv(rows, rows.len()) + row.query + seq!['\t']
        + two_decimals(row.score) + seq!['\t'] + row_text(row) + seq!['\t'] + decimal(
        row.page_number as int,
    ) + seq!['\n']);
}

proof fn lemma_first_lines(rows: Seq<Row>, row: Row, n: nat)
    requires
        n <= rows.len(),
    ensures
        tsv(rows.push(row), n) == tsv(rows, n),
        sheet(rows.push(row), n) == sheet(rows, n),
    decreases n,
{
    if n > 0 {
        lemma_first_lines(rows, row, (n - 1) as nat);
    }
}

/// One more row adds four cells to the sheet, on the line below: the query, the score as a number,
/// the text of the row and the page.
pub proof fn law_row_adds_its_cells(rows: Seq<Row>, row: Row)
    requires
        rows.len() < u32::MAX,
    ensures
        ({
            let before = sheet(rows, rows.len());
            let after = sheet(rows.push(row), rows.len() + 1);
            let n = before.len() as int;
            let line = (rows.len() + 1) as u32;
            &&& n == 4 * (rows.len() + 1)
            &&& after.len() == n + 4
            &&& after.subrange(0, n) == before
            &&& forall|k: int|
                0 <= k < 4 ==> (#[trigger] after[n + k]).row == line && after[n + k].column == k
            &&& after[n].content == CellContent::Text(row.query)
            &&& after[n + 1].content == CellContent::Number(row.score)
            &&& after[n + 2].content == CellContent::Text(row_text(row))
            &&& after[n + 3].content == CellContent::Text(decimal(row.page_number as int))
        }),
        ({
            let titles = sheet(Seq::empty(), 0);
            &&& titles.len() == 4
            &&& forall|k: int|
                0 <= k < 4 ==> (#[trigger] titles[k]).row == 0 && titles[k].column == k
            &&& titles[0].content == CellContent::Text("Consulta"@)
            &&& titles[1].content == CellContent::Text("Puntuación"@)
            &&& titles[2].content == CellContent::Text("Texto Original Coincidente"@)
            &&& titles[3].content == CellContent::Text("Página"@)
        }),
{
    lemma_sheet_len(rows, rows.len());
    lemma_first_lines(rows, row, rows.len());
    let more = rows.push(row);
    let before = sheet(rows, rows.len());
    let after = sheet(more, rows.len() + 1);
    assert(more[rows.len() as int] == row);
    assert(after == before + row_entries(row, (rows.len() + 1) as u32));
    assert(after.subrange(0, before.len() as int) == before);
}

} // verus!
