//! Lays out the kept records as an eight-column table and writes it to a worksheet.
use vstd::prelude::*;
use crate::record::{EmployeeData, EmployeeView, Source, opt_int, views};
use crate::reconcile::{leave_only, leave_pred};
use rust_xlsxwriter::{Format, Worksheet, XlsxError};

verus! {

#[verifier::external_type_specification]
#[verifier::external_body]
pub struct ExWorksheet(rust_xlsxwriter::Worksheet);

#[verifier::external_type_specification]
#[verifier::external_body]
pub struct ExFormat(rust_xlsxwriter::Format);

#[verifier::external_type_specification]
#[verifier::external_body]
pub struct ExXlsxError(rust_xlsxwriter::XlsxError);

/// Number of columns of the output table.
pub const COLUMN_COUNT: u16 = 8;

/// The header labels, in column order.
pub open spec fn header_labels() -> Seq<Seq<char>> {
    seq![
        "Last Name"@,
        "First Name"@,
        "ID Number"@,
        "Date From"@,
        "Date To"@,
        "Care Flag"@,
        "Hospital Stay"@,
        "Certificate Status"@,
    ]
}

/// The header labels of the output table, in column order.
pub fn header_row() -> (r: Vec<String>)
    ensures
        r@.map_values(|s: String| s@) == header_labels(),
{
    let r = vec![
        String::from_str("Last Name"),
        String::from_str("First Name"),
        String::from_str("ID Number"),
        String::from_str("Date From"),
        String::from_str("Date To"),
        String::from_str("Care Flag"),
        String::from_str("Hospital Stay"),
        String::from_str("Certificate Status"),
    ];
    assert(r@.map_values(|s: String| s@) =~= header_labels());
    r
}

/// The fixed width of each column, in character units.
pub open spec fn column_width_spec(col: int) -> int {
    if col == 0 {
        20
    } else if col == 1 || col == 6 {
        15
    } else if col == 5 {
        10
    } else {
        12
    }
}

pub fn column_width(col: u16) -> (r: u16)
    ensures
        r == column_width_spec(col as int),
{
    if col == 0 {
        20
    } else if col == 1 || col == 6 {
        15
    } else if col == 5 {
        10
    } else {
        12
    }
}

/// One output cell: text, a date serial shown in date format, or a blank cell
/// that still carries the date format.
#[derive(Clone, Debug)]
pub enum OutCell {
    Text(String),
    Date(i32),
    BlankDate,
}

/// What a cell holds: text, a number, or nothing (a blank cell, which may
/// still carry a format).
pub enum OutCellView {
    Text(Seq<char>),
    Date(int),
    Blank,
}

impl View for OutCell {
    type V = OutCellView;

    open spec fn view(&self) -> OutCellView {
        match self {
            OutCell::Text(s) => OutCellView::Text(s@),
            OutCell::Date(d) => OutCellView::Date(*d as int),
            OutCell::BlankDate => OutCellView::Blank,
        }
    }
}

pub open spec fn date_cell_view(d: Option<int>) -> OutCellView {
    match d {
        Some(v) => OutCellView::Date(v),
        None => OutCellView::Blank,
    }
}

/// The cells of the output row of a record, in column order.
pub open spec fn row_layout(e: EmployeeView) -> Seq<OutCellView> {
    seq![
        OutCellView::Text(e.nazwisko),
        OutCellView::Text(e.imie),
        OutCellView::Text(e.pesel),
        date_cell_view(e.data_od),
        date_cell_view(e.data_do),
        OutCellView::Text(e.na_opieke),
        OutCellView::Text(e.pobyt_w_szpitalu),
        OutCellView::Text(e.status),
    ]
}

fn date_cell(d: Option<i32>) -> (r: OutCell)
    ensures
        r@ == date_cell_view(opt_int(d)),
{
    match d {
        Some(v) => OutCell::Date(v),
        None => OutCell::BlankDate,
    }
}

/// The cells of the output row of `e`, in column order.
pub fn output_row(e: &EmployeeData) -> (r: Vec<OutCell>)
    ensures
        r@.map_values(|c: OutCell| c@) == row_layout(e@),
{
    let r = vec![
        OutCell::Text(e.nazwisko.clone()),
        OutCell::Text(e.imie.clone()),
        OutCell::Text(e.pesel.clone()),
        date_cell(e.data_od),
        date_cell(e.data_do),
        OutCell::Text(e.na_opieke.clone()),
        OutCell::Text(e.pobyt_w_szpitalu.clone()),
        OutCell::Text(e.status.clone()),
    ];
    assert(r@.map_values(|c: OutCell| c@) =~= row_layout(e@));
    r
}

/// Where a write to the worksheet failed, and why.
pub struct WriteError {
    pub row: u32,
    pub col: u16,
    pub cause: XlsxError,
}

/// Relies on `rust_xlsxwriter::Format::new`: a format with no properties set.
#[verifier::external_body]
pub(crate) fn new_format() -> Format {
    Format::new()
}

/// Relies on `Format::set_bold`: `f` with bold text.
#[verifier::external_body]
pub(crate) fn bold(f: Format) -> Format {
    f.set_bold()
}

/// Relies on `Format::set_background_color`: `f` with the background colour `rgb`.
#[verifier::external_body]
pub(crate) fn background_rgb(f: Format, rgb: u32) -> Format {
    f.set_background_color(rust_xlsxwriter::Color::RGB(rgb))
}

/// Relies on `Format::set_font_color`: `f` with the font colour `rgb`.
#[verifier::external_body]
pub(crate) fn font_rgb(f: Format, rgb: u32) -> Format {
    f.set_font_color(rust_xlsxwriter::Color::RGB(rgb))
}

/// Relies on `Format::set_border`: `f` with a thin border on every side.
#[verifier::external_body]
pub(crate) fn thin_border(f: Format) -> Format {
    f.set_border(rust_xlsxwriter::FormatBorder::Thin)
}

/// Relies on `Format::set_num_format`: `f` showing numbers through `pattern`.
#[verifier::external_body]
pub(crate) fn num_format(f: Format, pattern: &str) -> Format {
    f.set_num_format(pattern)
}

/// Rows and columns that a worksheet can hold, and the longest text of a cell.
pub open spec fn row_limit() -> int {
    1_048_576
}

pub open spec fn col_limit() -> int {
    16_384
}

pub open spec fn text_limit() -> int {
    32_767
}

/// What the cells of a worksheet hold, by (row, column): text, a number, or a
/// blank cell.
pub uninterp spec fn sheet_cells(ws: Worksheet) -> Map<(u32, u16), OutCellView>;

/// The format that each cell was last written with. A cell written without a
/// format has no entry: it shows the default format, as long as no row of the
/// sheet has a format of its own (`rows_unformatted`).
pub uninterp spec fn sheet_formats(ws: Worksheet) -> Map<(u32, u16), Format>;

/// The width, in character units, that each column was last given.
pub uninterp spec fn column_widths(ws: Worksheet) -> Map<u16, int>;

/// Whether the worksheet keeps every cell written to it; one made in
/// constant-memory mode drops writes to rows it has already flushed.
pub uninterp spec fn keeps_all_rows(ws: Worksheet) -> bool;

/// Whether no row of the worksheet has a format of its own. When a cell's row
/// and column both have one, a cell written without a format, or with the
/// default format, takes their combination instead.
pub uninterp spec fn rows_unformatted(ws: Worksheet) -> bool;

pub open spec fn no_cells() -> Map<(u32, u16), OutCellView> {
    Map::empty()
}

pub open spec fn no_formats() -> Map<(u32, u16), Format> {
    Map::empty()
}

pub open spec fn no_widths() -> Map<u16, int> {
    Map::empty()
}

/// Relies on `Worksheet::new`: an empty worksheet in standard-memory mode,
/// with no row or column formats.
#[verifier::external_body]
pub fn new_worksheet() -> (r: Worksheet)
    ensures
        keeps_all_rows(r),
        rows_unformatted(r),
        sheet_cells(r) == no_cells(),
        sheet_formats(r) == no_formats(),
        column_widths(r) == no_widths(),
{
    Worksheet::new()
}

/// Relies on `Worksheet::write_string`: empty text is ignored; other text is
/// stored without a format at (`row`, `col`) when both are in range and the
/// text has at most 32,767 characters, and refused otherwise.
#[verifier::external_body]
fn put_text(sheet: &mut Worksheet, row: u32, col: u16, text: &str) -> (r: Result<(), XlsxError>)
    ensures
        keeps_all_rows(*final(sheet)) == keeps_all_rows(*old(sheet)),
        rows_unformatted(*final(sheet)) == rows_unformatted(*old(sheet)),
        column_widths(*final(sheet)) == column_widths(*old(sheet)),
        text@.len() == 0 ==> r is Ok && *final(sheet) == *old(sheet),
        text@.len() > 0 ==> (r is Ok <==> (row < row_limit() && col < col_limit() && text@.len() <= text_limit())),
        r is Err ==> sheet_cells(*final(sheet)) == sheet_cells(*old(sheet)) && sheet_formats(*final(sheet)) == sheet_formats(*old(sheet)),
        (r is Ok && text@.len() > 0 && keeps_all_rows(*old(sheet))) ==> sheet_cells(*final(sheet)) == sheet_cells(*old(sheet)).insert((row, col), OutCellView::Text(text@)),
        (r is Ok && text@.len() > 0 && keeps_all_rows(*old(sheet)) && rows_unformatted(*old(sheet))) ==> sheet_formats(*final(sheet)) == sheet_formats(*old(sheet)).remove((row, col)),
{
    match sheet.write_string(row, col, text) {
        Ok(_) => Ok(()),
        Err(e) => Err(e),
    }
}

/// Relies on `Worksheet::write_string_with_format`: text, or a blank cell for
/// empty text, stored in format `f` at (`row`, `col`) when both are in range
/// and the text has at most 32,767 characters, and refused otherwise.
#[verifier::external_body]
fn put_text_with_format(sheet: &mut Worksheet, row: u32, col: u16, text: &str, f: &Format) -> (r:
    Result<(), XlsxError>)
    ensures
        keeps_all_rows(*final(sheet)) == keeps_all_rows(*old(sheet)),
        rows_unformatted(*final(sheet)) == rows_unformatted(*old(sheet)),
        column_widths(*final(sheet)) == column_widths(*old(sheet)),
        r is Ok <==> (row < row_limit() && col < col_limit() && text@.len() <= text_limit()),
        r is Err ==> sheet_cells(*final(sheet)) == sheet_cells(*old(sheet)) && sheet_formats(*final(sheet)) == sheet_formats(*old(sheet)),
        (r is Ok && keeps_all_rows(*old(sheet))) ==> sheet_cells(*final(sheet)) == sheet_cells(*old(sheet)).insert((row, col), text_cell(text@)),
        (r is Ok && keeps_all_rows(*old(sheet)) && rows_unformatted(*old(sheet))) ==> sheet_formats(*final(sheet)) == sheet_formats(*old(sheet)).insert((row, col), *f),
{
    match sheet.write_string_with_format(row, col, text, f) {
        Ok(_) => Ok(()),
        Err(e) => Err(e),
    }
}

/// Relies on `Worksheet::write_number_with_format`: `n` stored in format `f`
/// at (`row`, `col`) when both are in range, and refused otherwise.
#[verifier::external_body]
fn put_number_with_format(sheet: &mut Worksheet, row: u32, col: u16, n: i32, f: &Format) -> (r:
    Result<(), XlsxError>)
    ensures
        keeps_all_rows(*final(sheet)) == keeps_all_rows(*old(sheet)),
        rows_unformatted(*final(sheet)) == rows_unformatted(*old(sheet)),
        column_widths(*final(sheet)) == column_widths(*old(sheet)),
        r is Ok <==> (row < row_limit() && col < col_limit()),
        r is Err ==> sheet_cells(*final(sheet)) == sheet_cells(*old(sheet)) && sheet_formats(*final(sheet)) == sheet_formats(*old(sheet)),
        (r is Ok && keeps_all_rows(*old(sheet))) ==> sheet_cells(*final(sheet)) == sheet_cells(*old(sheet)).insert((row, col), OutCellView::Date(n as int)),
        (r is Ok && keeps_all_rows(*old(sheet)) && rows_unformatted(*old(sheet))) ==> sheet_formats(*final(sheet)) == sheet_formats(*old(sheet)).insert((row, col), *f),
{
    match sheet.write_number_with_format(row, col, n, f) {
        Ok(_) => Ok(()),
        Err(e) => Err(e),
    }
}

/// Relies on `Worksheet::write_blank`: a blank cell in format `f` at
/// (`row`, `col`) when both are in range, and refused otherwise.
#[verifier::external_body]
fn put_blank(sheet: &mut Worksheet, row: u32, col: u16, f: &Format) -> (r: Result<(), XlsxError>)
    ensures
        keeps_all_rows(*final(sheet)) == keeps_all_rows(*old(sheet)),
        rows_unformatted(*final(sheet)) == rows_unformatted(*old(sheet)),
        column_widths(*final(sheet)) == column_widths(*old(sheet)),
        r is Ok <==> (row < row_limit() && col < col_limit()),
        r is Err ==> sheet_cells(*final(sheet)) == sheet_cells(*old(sheet)) && sheet_formats(*final(sheet)) == sheet_formats(*old(sheet)),
        (r is Ok && keeps_all_rows(*old(sheet))) ==> sheet_cells(*final(sheet)) == sheet_cells(*old(sheet)).insert((row, col), OutCellView::Blank),
        (r is Ok && keeps_all_rows(*old(sheet)) && rows_unformatted(*old(sheet))) ==> sheet_formats(*final(sheet)) == sheet_formats(*old(sheet)).insert((row, col), *f),
{
    match sheet.write_blank(row, col, f) {
        Ok(_) => Ok(()),
        Err(e) => Err(e),
    }
}

/// Relies on `Worksheet::set_column_width`: column `col` becomes `width`
/// characters wide when it is in range, and the call is refused otherwise.
/// Widths above 255 would be capped, so they are not admitted.
#[verifier::external_body]
fn put_column_width(sheet: &mut Worksheet, col: u16, width: u16) -> (r: Result<(), XlsxError>)
    requires
        0 < width <= 255,
    ensures
        keeps_all_rows(*final(sheet)) == keeps_all_rows(*old(sheet)),
        rows_unformatted(*final(sheet)) == rows_unformatted(*old(sheet)),
        sheet_cells(*final(sheet)) == sheet_cells(*old(sheet)),
        sheet_formats(*final(sheet)) == sheet_formats(*old(sheet)),
        r is Ok <==> col < col_limit(),
        r is Ok ==> column_widths(*final(sheet)) == column_widths(*old(sheet)).insert(col, width as int),
        r is Err ==> column_widths(*final(sheet)) == column_widths(*old(sheet)),
{
    match sheet.set_column_width(col, width) {
        Ok(_) => Ok(()),
        Err(e) => Err(e),
    }
}

/// The header style: bold white text on blue, with a thin border.
pub fn header_format() -> Format {
    thin_border(font_rgb(background_rgb(bold(new_format()), 0x4F81BD), 0xFFFFFF))
}

/// The date style: day, month and year.
pub fn date_format() -> Format {
    num_format(new_format(), "dd/mm/yyyy")
}

/// A formatted text cell: the text, or a blank cell when it is empty.
pub open spec fn text_cell(t: Seq<char>) -> OutCellView {
    if t.len() == 0 {
        OutCellView::Blank
    } else {
        OutCellView::Text(t)
    }
}

/// Cells after the header labels `labels` are written across row 0.
pub open spec fn header_cells(m: Map<(u32, u16), OutCellView>, labels: Seq<Seq<char>>) -> Map<
    (u32, u16),
    OutCellView,
>
    decreases labels.len(),
{
    if labels.len() == 0 {
        m
    } else {
        header_cells(m, labels.drop_last()).insert((0, (labels.len() - 1) as u16), text_cell(labels.last()))
    }
}

/// Formats after `n` header cells are written across row 0 in format `f`.
pub open spec fn header_formats(fm: Map<(u32, u16), Format>, n: nat, f: Format) -> Map<(u32, u16), Format>
    decreases n,
{
    if n == 0 {
        fm
    } else {
        header_formats(fm, (n - 1) as nat, f).insert((0, (n - 1) as u16), f)
    }
}

/// Cells after `v` is written at `key`: text without a format, where empty text
/// changes nothing, or a number or blank cell in the date format.
pub open spec fn cell_put(m: Map<(u32, u16), OutCellView>, key: (u32, u16), v: OutCellView) -> Map<
    (u32, u16),
    OutCellView,
> {
    match v {
        OutCellView::Text(t) => if t.len() == 0 {
            m
        } else {
            m.insert(key, v)
        },
        _ => m.insert(key, v),
    }
}

pub open spec fn format_put(fm: Map<(u32, u16), Format>, key: (u32, u16), v: OutCellView, f: Format) -> Map<
    (u32, u16),
    Format,
> {
    match v {
        OutCellView::Text(t) => if t.len() == 0 {
            fm
        } else {
            fm.remove(key)
        },
        _ => fm.insert(key, f),
    }
}

/// Cells after `cells` are written across row `row`, from column 0.
pub open spec fn row_cells(m: Map<(u32, u16), OutCellView>, row: u32, cells: Seq<OutCellView>) -> Map<
    (u32, u16),
    OutCellView,
>
    decreases cells.len(),
{
    if cells.len() == 0 {
        m
    } else {
        cell_put(row_cells(m, row, cells.drop_last()), (row, (cells.len() - 1) as u16), cells.last())
    }
}

pub open spec fn row_formats(fm: Map<(u32, u16), Format>, row: u32, cells: Seq<OutCellView>, f: Format) -> Map<
    (u32, u16),
    Format,
>
    decreases cells.len(),
{
    if cells.len() == 0 {
        fm
    } else {
        format_put(row_formats(fm, row, cells.drop_last(), f), (row, (cells.len() - 1) as u16), cells.last(), f)
    }
}

/// Cells after the rows of `recs` are written from row 1 down, in order.
pub open spec fn data_cells(m: Map<(u32, u16), OutCellView>, recs: Seq<EmployeeView>) -> Map<
    (u32, u16),
    OutCellView,
>
    decreases recs.len(),
{
    if recs.len() == 0 {
        m
    } else {
        row_cells(data_cells(m, recs.drop_last()), recs.len() as u32, row_layout(recs.last()))
    }
}

pub open spec fn data_formats(fm: Map<(u32, u16), Format>, recs: Seq<EmployeeView>, f: Format) -> Map<
    (u32, u16),
    Format,
>
    decreases recs.len(),
{
    if recs.len() == 0 {
        fm
    } else {
        row_formats(data_formats(fm, recs.drop_last(), f), recs.len() as u32, row_layout(recs.last()), f)
    }
}

/// Column widths after the first `n` columns get their fixed widths.
pub open spec fn fixed_widths(w: Map<u16, int>, n: nat) -> Map<u16, int>
    decreases n,
{
    if n == 0 {
        w
    } else {
        fixed_widths(w, (n - 1) as nat).insert((n - 1) as u16, column_width_spec(n - 1))
    }
}

/// A text cell holds at most the longest text a cell can take.
pub open spec fn cell_fits(v: OutCellView) -> bool {
    match v {
        OutCellView::Text(t) => t.len() <= text_limit(),
        _ => true,
    }
}

/// The text fields of a record fit in a cell.
pub open spec fn texts_fit(e: EmployeeView) -> bool {
    &&& e.nazwisko.len() <= text_limit()
    &&& e.imie.len() <= text_limit()
    &&& e.pesel.len() <= text_limit()
    &&& e.na_opieke.len() <= text_limit()
    &&& e.pobyt_w_szpitalu.len() <= text_limit()
    &&& e.status.len() <= text_limit()
}

/// Writes `headers` across row 0 in `header_format`, label `c` at column `c`.
/// On a failure at column `c`, the labels before `c` have been written and
/// nothing else.
pub fn write_headers(sheet: &mut Worksheet, headers: &Vec<String>, header_format: &Format) -> (r:
    Result<(), WriteError>)
    requires
        headers@.len() <= u16::MAX,
    ensures
        keeps_all_rows(*final(sheet)) == keeps_all_rows(*old(sheet)),
        rows_unformatted(*final(sheet)) == rows_unformatted(*old(sheet)),
        column_widths(*final(sheet)) == column_widths(*old(sheet)),
        (headers@.len() <= col_limit() && forall|c: int| 0 <= c < headers@.len() ==> (#[trigger] headers@[c])@.len() <= text_limit()) ==> r is Ok,
        r matches Err(e) ==> e.row == 0 && e.col < headers@.len(),
        (r is Ok && keeps_all_rows(*old(sheet))) ==> sheet_cells(*final(sheet)) == header_cells(sheet_cells(*old(sheet)), headers@.map_values(|s: String| s@)),
        (r is Ok && keeps_all_rows(*old(sheet)) && rows_unformatted(*old(sheet))) ==> sheet_formats(*final(sheet)) == header_formats(sheet_formats(*old(sheet)), headers@.len(), *header_format),
        r matches Err(e) ==> ((keeps_all_rows(*old(sheet))) ==> sheet_cells(*final(sheet)) == header_cells(sheet_cells(*old(sheet)), headers@.map_values(|s: String| s@).subrange(0, e.col as int))),
        r matches Err(e) ==> ((keeps_all_rows(*old(sheet)) && rows_unformatted(*old(sheet))) ==> sheet_formats(*final(sheet)) == header_formats(sheet_formats(*old(sheet)), e.col as nat, *header_format)),
{
    let ghost labels = headers@.map_values(|s: String| s@);
    let ghost keeps = keeps_all_rows(*old(sheet));
    let ghost unf = rows_unformatted(*old(sheet));
    let ghost m0 = sheet_cells(*old(sheet));
    let ghost f0 = sheet_formats(*old(sheet));
    let ghost w0 = column_widths(*old(sheet));
    let mut col: usize = 0;
    while col < headers.len()
        invariant
            headers@.len() <= u16::MAX,
            col <= headers@.len(),
            labels == headers@.map_values(|s: String| s@),
            keeps == keeps_all_rows(*old(sheet)),
            unf == rows_unformatted(*old(sheet)),
            w0 == column_widths(*old(sheet)),
            m0 == sheet_cells(*old(sheet)),
            f0 == sheet_formats(*old(sheet)),
            keeps_all_rows(*sheet) == keeps,
            rows_unformatted(*sheet) == unf,
            column_widths(*sheet) == w0,
            keeps ==> sheet_cells(*sheet) == header_cells(m0, labels.subrange(0, col as int)),
            keeps && unf ==> sheet_formats(*sheet) == header_formats(f0, col as nat, *header_format),
        decreases headers@.len() - col,
    {
        let ghost before = labels.subrange(0, col as int);
        let ghost after = labels.subrange(0, col + 1);
        assert(after.drop_last() =~= before);
        assert(after.last() == headers@[col as int]@);
        match put_text_with_format(sheet, 0, col as u16, headers[col].as_str(), header_format) {
            Ok(()) => {},
            Err(cause) => {
                return Err(WriteError { row: 0, col: col as u16, cause });
            },
        }
        col = col + 1;
    }
    assert(labels.subrange(0, headers@.len() as int) =~= labels);
    Ok(())
}

/// Writes the cells of one output row at `row` of the sheet, from column 0.
fn write_row(sheet: &mut Worksheet, row: u32, cells: &Vec<OutCell>, date_format: &Format) -> (r: Result<
    (),
    WriteError,
>)
    requires
        cells@.len() <= u16::MAX,
    ensures
        keeps_all_rows(*final(sheet)) == keeps_all_rows(*old(sheet)),
        rows_unformatted(*final(sheet)) == rows_unformatted(*old(sheet)),
        column_widths(*final(sheet)) == column_widths(*old(sheet)),
        (row < row_limit() && cells@.len() <= col_limit() && forall|c: int| 0 <= c < cells@.len() ==> cell_fits((#[trigger] cells@[c])@)) ==> r is Ok,
        r matches Err(e) ==> e.row == row && e.col < cells@.len(),
        (r is Ok && keeps_all_rows(*old(sheet))) ==> sheet_cells(*final(sheet)) == row_cells(sheet_cells(*old(sheet)), row, cells@.map_values(|c: OutCell| c@)),
        (r is Ok && keeps_all_rows(*old(sheet)) && rows_unformatted(*old(sheet))) ==> sheet_formats(*final(sheet)) == row_formats(sheet_formats(*old(sheet)), row, cells@.map_values(|c: OutCell| c@), *date_format),
        r matches Err(e) ==> ((keeps_all_rows(*old(sheet))) ==> sheet_cells(*final(sheet)) == row_cells(sheet_cells(*old(sheet)), row, cells@.map_values(|c: OutCell| c@).subrange(0, e.col as int))),
        r matches Err(e) ==> ((keeps_all_rows(*old(sheet)) && rows_unformatted(*old(sheet))) ==> sheet_formats(*final(sheet)) == row_formats(sheet_formats(*old(sheet)), row, cells@.map_values(|c: OutCell| c@).subrange(0, e.col as int), *date_format)),
{
    let ghost cv = cells@.map_values(|c: OutCell| c@);
    let ghost keeps = keeps_all_rows(*old(sheet));
    let ghost unf = rows_unformatted(*old(sheet));
    let ghost m0 = sheet_cells(*old(sheet));
    let ghost f0 = sheet_formats(*old(sheet));
    let ghost w0 = column_widths(*old(sheet));
    let mut col: usize = 0;
    while col < cells.len()
        invariant
            cells@.len() <= u16::MAX,
            col <= cells@.len(),
            cv == cells@.map_values(|c: OutCell| c@),
            keeps == keeps_all_rows(*old(sheet)),
            unf == rows_unformatted(*old(sheet)),
            w0 == column_widths(*old(sheet)),
            m0 == sheet_cells(*old(sheet)),
            f0 == sheet_formats(*old(sheet)),
            keeps_all_rows(*sheet) == keeps,
            rows_unformatted(*sheet) == unf,
            column_widths(*sheet) == w0,
            keeps ==> sheet_cells(*sheet) == row_cells(m0, row, cv.subrange(0, col as int)),
            keeps && unf ==> sheet_formats(*sheet) == row_formats(f0, row, cv.subrange(0, col as int), *date_format),
        decreases cells@.len() - col,
    {
        let c = col as u16;
        let ghost before = cv.subrange(0, col as int);
        let ghost after = cv.subrange(0, col + 1);
        assert(after.drop_last() =~= before);
        assert(after.last() == cells@[col as int]@);
        let written = match &cells[col] {
            OutCell::Text(t) => put_text(sheet, row, c, t.as_str()),
            OutCell::Date(d) => put_number_with_format(sheet, row, c, *d, date_format),
            OutCell::BlankDate => put_blank(sheet, row, c, date_format),
        };
        match written {
            Ok(()) => {},
            Err(cause) => {
                return Err(WriteError { row, col: c, cause });
            },
        }
        col = col + 1;
    }
    assert(cv.subrange(0, cells@.len() as int) =~= cv);
    Ok(())
}

/// Sets the fixed column widths, then writes one row per leave record of
/// `data`, from row 1 down, in the order of `data`; other records take no row.
/// On a failure at row `k + 1`, column `c`, the rows of the first `k` leave
/// records and the first `c` cells of the next have been written, and nothing
/// else.
pub fn write_data(sheet: &mut Worksheet, data: &Vec<EmployeeData>, date_format: &Format) -> (r:
    Result<(), WriteError>)
    requires
        data@.len() < u32::MAX,
    ensures
        keeps_all_rows(*final(sheet)) == keeps_all_rows(*old(sheet)),
        rows_unformatted(*final(sheet)) == rows_unformatted(*old(sheet)),
        (leave_only(views(data@)).len() < row_limit() && forall|j: int| 0 <= j < data@.len() && (#[trigger] data@[j]).source == Source::Leave ==> texts_fit(data@[j]@)) ==> r is Ok,
        r matches Err(e) ==> 1 <= e.row <= leave_only(views(data@)).len() && e.col < COLUMN_COUNT,
        column_widths(*final(sheet)) == fixed_widths(column_widths(*old(sheet)), COLUMN_COUNT as nat),
        (r is Ok && keeps_all_rows(*old(sheet))) ==> sheet_cells(*final(sheet)) == data_cells(sheet_cells(*old(sheet)), leave_only(views(data@))),
        (r is Ok && keeps_all_rows(*old(sheet)) && rows_unformatted(*old(sheet))) ==> sheet_formats(*final(sheet)) == data_formats(sheet_formats(*old(sheet)), leave_only(views(data@)), *date_format),
        r matches Err(e) ==> ((keeps_all_rows(*old(sheet))) ==> sheet_cells(*final(sheet)) == row_cells(data_cells(sheet_cells(*old(sheet)), leave_only(views(data@)).subrange(0, e.row - 1)), e.row, row_layout(leave_only(views(data@))[e.row - 1]).subrange(0, e.col as int))),
        r matches Err(e) ==> ((keeps_all_rows(*old(sheet)) && rows_unformatted(*old(sheet))) ==> sheet_formats(*final(sheet)) == row_formats(data_formats(sheet_formats(*old(sheet)), leave_only(views(data@)).subrange(0, e.row - 1), *date_format), e.row, row_layout(leave_only(views(data@))[e.row - 1]).subrange(0, e.col as int), *date_format)),
{
    let ghost keeps = keeps_all_rows(*old(sheet));
    let ghost unf = rows_unformatted(*old(sheet));
    let ghost m0 = sheet_cells(*old(sheet));
    let ghost f0 = sheet_formats(*old(sheet));
    let ghost w0 = column_widths(*old(sheet));
    let mut col: u16 = 0;
    while col < COLUMN_COUNT
        invariant
            col <= COLUMN_COUNT,
            keeps == keeps_all_rows(*old(sheet)),
            unf == rows_unformatted(*old(sheet)),
            m0 == sheet_cells(*old(sheet)),
            f0 == sheet_formats(*old(sheet)),
            w0 == column_widths(*old(sheet)),
            keeps_all_rows(*sheet) == keeps,
            rows_unformatted(*sheet) == unf,
            sheet_cells(*sheet) == m0,
            sheet_formats(*sheet) == f0,
            column_widths(*sheet) == fixed_widths(w0, col as nat),
        decreases COLUMN_COUNT - col,
    {
        match put_column_width(sheet, col, column_width(col)) {
            Ok(()) => {},
            Err(cause) => {
                assert(false);
                return Err(WriteError { row: 0, col, cause });
            },
        }
        col = col + 1;
    }
    let ghost recs = views(data@);
    let ghost lv = leave_only(recs);
    let ghost w1 = column_widths(*sheet);
    let mut row: u32 = 1;
    let mut i: usize = 0;
    proof {
        reveal(Seq::filter);
        assert(recs.subrange(0, 0).filter(leave_pred()) =~= Seq::<EmployeeView>::empty());
    }
    while i < data.len()
        invariant
            data@.len() < u32::MAX,
            i <= data@.len(),
            recs == views(data@),
            lv == leave_only(recs),
            row == leave_only(recs.subrange(0, i as int)).len() + 1,
            row <= i + 1,
            leave_only(recs.subrange(0, i as int)) == lv.subrange(0, row - 1),
            keeps == keeps_all_rows(*old(sheet)),
            unf == rows_unformatted(*old(sheet)),
            m0 == sheet_cells(*old(sheet)),
            f0 == sheet_formats(*old(sheet)),
            w1 == fixed_widths(column_widths(*old(sheet)), COLUMN_COUNT as nat),
            keeps_all_rows(*sheet) == keeps,
            rows_unformatted(*sheet) == unf,
            column_widths(*sheet) == w1,
            keeps ==> sheet_cells(*sheet) == data_cells(m0, lv.subrange(0, row - 1)),
            keeps && unf ==> sheet_formats(*sheet) == data_formats(f0, lv.subrange(0, row - 1), *date_format),
        decreases data@.len() - i,
    {
        let ghost pre = recs.subrange(0, i as int);
        let ghost here = data@[i as int]@;
        assert(recs.subrange(0, i + 1) =~= pre.push(here));
        proof {
            pre.lemma_filter_push(here, leave_pred());
            lemma_leave_prefix(recs, i + 1);
        }
        if data[i].source == Source::Leave {
            let cells = output_row(&data[i]);
            let ghost done = lv.subrange(0, row - 1);
            let ghost next = lv.subrange(0, row as int);
            assert(leave_only(recs.subrange(0, i + 1)) == leave_only(pre).push(here));
            assert(leave_only(recs.subrange(0, i + 1)).len() == row);
            assert(leave_only(recs.subrange(0, i + 1))[row - 1] == here);
            assert(lv.subrange(0, row as int)[row - 1] == lv[row - 1]);
            assert(lv[row - 1] == here);
            assert(next =~= done.push(here));
            assert(next.drop_last() =~= done);
            assert(cells@.map_values(|c: OutCell| c@) == row_layout(here));
            assert(cells@.len() == cells@.map_values(|c: OutCell| c@).len());
            assert(cells@.len() == 8);
            proof {
                if lv.len() < row_limit() && forall|j: int| 0 <= j < data@.len() && (#[trigger] data@[j]).source == Source::Leave ==> texts_fit(data@[j]@) {
                    assert(data@[i as int].source == Source::Leave);
                    assert(texts_fit(here));
                    assert forall|c: int| 0 <= c < cells@.len() implies cell_fits((#[trigger] cells@[c])@) by {
                        assert(cells@[c]@ == cells@.map_values(|c: OutCell| c@)[c]);
                        assert(cells@[c]@ == row_layout(here)[c]);
                        if c == 0 {} else if c == 1 {} else if c == 2 {} else if c == 3 {} else if c == 4 {
                        } else if c == 5 {} else if c == 6 {} else {}
                    }
                }
            }
            match write_row(sheet, row, &cells, date_format) {
                Ok(()) => {},
                Err(e) => {
                    return Err(e);
                },
            }
            row = row + 1;
        } else {
            assert(leave_only(recs.subrange(0, i + 1)) == leave_only(pre));
        }
        i = i + 1;
    }
    assert(recs.subrange(0, data@.len() as int) =~= recs);
    assert(lv.subrange(0, lv.len() as int) =~= lv);
    Ok(())
}

/// The leave records of a prefix of `recs` are a prefix of its leave records.
proof fn lemma_leave_prefix(recs: Seq<EmployeeView>, i: int)
    requires
        0 <= i <= recs.len(),
    ensures
        leave_only(recs.subrange(0, i)).len() <= leave_only(recs).len(),
        leave_only(recs.subrange(0, i)) == leave_only(recs).subrange(0, leave_only(recs.subrange(0, i)).len() as int),
    decreases recs.len() - i,
{
    if i < recs.len() {
        lemma_leave_prefix(recs, i + 1);
        assert(recs.subrange(0, i + 1) =~= recs.subrange(0, i).push(recs[i]));
        recs.subrange(0, i).lemma_filter_push(recs[i], leave_pred());
        let a = leave_only(recs.subrange(0, i));
        let b = leave_only(recs.subrange(0, i + 1));
        let full = leave_only(recs);
        assert(a =~= full.subrange(0, a.len() as int)) by {
            assert forall|k: int| 0 <= k < a.len() implies a[k] == full[k] by {
                assert(b[k] == a[k]);
                assert(b[k] == full.subrange(0, b.len() as int)[k]);
            }
        }
    } else {
        assert(recs.subrange(0, i) =~= recs);
        assert(leave_only(recs).subrange(0, leave_only(recs).len() as int) =~= leave_only(recs));
    }
}

proof fn lemma_cell_put_other(m: Map<(u32, u16), OutCellView>, key: (u32, u16), v: OutCellView, other: (u32, u16))
    requires
        other != key,
    ensures
        cell_put(m, key, v).dom().contains(other) == m.dom().contains(other),
        m.dom().contains(other) ==> cell_put(m, key, v)[other] == m[other],
{
}

proof fn lemma_row_cells_other_row(m: Map<(u32, u16), OutCellView>, row: u32, cells: Seq<OutCellView>, key: (u32, u16))
    requires
        key.0 != row,
    ensures
        row_cells(m, row, cells).dom().contains(key) == m.dom().contains(key),
        m.dom().contains(key) ==> row_cells(m, row, cells)[key] == m[key],
    decreases cells.len(),
{
    if cells.len() > 0 {
        lemma_row_cells_other_row(m, row, cells.drop_last(), key);
        lemma_cell_put_other(row_cells(m, row, cells.drop_last()), (row, (cells.len() - 1) as u16), cells.last(), key);
    }
}

proof fn lemma_row_cells_at(m: Map<(u32, u16), OutCellView>, row: u32, cells: Seq<OutCellView>, c: int)
    requires
        0 <= c < cells.len() <= u16::MAX,
        cells[c] != OutCellView::Text(Seq::empty()),
    ensures
        row_cells(m, row, cells).dom().contains((row, c as u16)),
        row_cells(m, row, cells)[(row, c as u16)] == cells[c],
    decreases cells.len(),
{
    let n = cells.len() - 1;
    if c == n {
        if cells.last() is Text {
            assert(cells.last()->Text_0.len() > 0) by {
                if cells.last()->Text_0.len() == 0 {
                    assert(cells.last()->Text_0 =~= Seq::<char>::empty());
                }
            }
        }
    } else {
        lemma_row_cells_at(m, row, cells.drop_last(), c);
        lemma_cell_put_other(row_cells(m, row, cells.drop_last()), (row, n as u16), cells.last(), (row, c as u16));
    }
}

/// After a successful `write_data` on a sheet that keeps all rows, row `k + 1`
/// of the sheet holds the cells of the `k`-th leave record: each date or blank
/// date cell, and each text cell whose text is not empty.
pub proof fn lemma_data_cell(m: Map<(u32, u16), OutCellView>, recs: Seq<EmployeeView>, k: int, c: int)
    requires
        0 <= k < recs.len() < row_limit(),
        0 <= c < COLUMN_COUNT,
        row_layout(recs[k])[c] != OutCellView::Text(Seq::empty()),
    ensures
        data_cells(m, recs).dom().contains(((k + 1) as u32, c as u16)),
        data_cells(m, recs)[((k + 1) as u32, c as u16)] == row_layout(recs[k])[c],
    decreases recs.len(),
{
    let n = recs.len() - 1;
    let prev = data_cells(m, recs.drop_last());
    if k == n {
        assert(recs.last() == recs[k]);
        lemma_row_cells_at(prev, recs.len() as u32, row_layout(recs.last()), c);
    } else {
        lemma_data_cell(m, recs.drop_last(), k, c);
        assert(recs.drop_last()[k] == recs[k]);
        lemma_row_cells_other_row(prev, recs.len() as u32, row_layout(recs.last()), ((k + 1) as u32, c as u16));
    }
}

/// After a successful `write_headers` on a sheet that keeps all rows, row 0
/// column `c` holds label `c`, as a blank cell where the label is empty.
pub proof fn lemma_header_cell(m: Map<(u32, u16), OutCellView>, labels: Seq<Seq<char>>, c: int)
    requires
        0 <= c < labels.len() <= u16::MAX,
    ensures
        header_cells(m, labels).dom().contains((0, c as u16)),
        header_cells(m, labels)[(0, c as u16)] == text_cell(labels[c]),
    decreases labels.len(),
{
    if c < labels.len() - 1 {
        lemma_header_cell(m, labels.drop_last(), c);
        assert(labels.drop_last()[c] == labels[c]);
    }
}

} // verus!
