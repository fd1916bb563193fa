use l4_filter::merger::{workbook_kind, workbook_kind_of_lower};
use l4_filter::reconcile::{filter_leave, find_common_pesels};
use l4_filter::table::{
    column_width, date_format, header_format, header_row, new_worksheet, output_row, write_data,
    write_headers, OutCell,
};
use l4_filter::{Cell, EmployeeData, ExcelMerger, Source, WorkbookKind};

fn text(s: &str) -> Cell {
    Cell::Text(s.to_string())
}

fn header() -> Vec<Cell> {
    vec![text("Ubezpieczony"), text("Seria"), text("Wyst"), text("Od"), text("Do")]
}

fn leave_row(first: &str) -> Vec<Cell> {
    vec![
        text(first),
        text("x"),
        text("y"),
        text("2024-01-10"),
        text("2024-01-20"),
        text("Yes"),
        text("No"),
        text("Approved"),
    ]
}

fn roster_sheet() -> Vec<Vec<Cell>> {
    vec![
        vec![text("Nazwisko"), text("Imie"), text("PESEL")],
        vec![text("Nowak"), text("Jan"), text("12345678901")],
    ]
}

fn record(id: &str, source: Source) -> EmployeeData {
    EmployeeData {
        nazwisko: "N".to_string(),
        imie: "I".to_string(),
        pesel: id.to_string(),
        data_od: None,
        data_do: None,
        na_opieke: String::new(),
        pobyt_w_szpitalu: String::new(),
        status: String::new(),
        source,
    }
}

#[test]
fn scenario_one_matching_row() {
    let mut m = ExcelMerger::new();
    let out = m.merge_rows(&roster_sheet(), &vec![header(), leave_row("Nowak Jan 12345678901")]);
    assert_eq!(out.common_count, 1);
    assert_eq!(out.rows.len(), 1);
    let e = &out.rows[0];
    assert_eq!(e.pesel, "12345678901");
    assert_eq!(e.data_od, Some(45301));
    assert_eq!(e.data_do, Some(45311));
    assert_eq!(e.na_opieke, "Yes");
    assert_eq!(e.pobyt_w_szpitalu, "No");
    assert_eq!(e.status, "Approved");
    assert_eq!(e.source, Source::Leave);
}

#[test]
fn scenario_unmatched_leave_row_excluded() {
    let mut m = ExcelMerger::new();
    let leave = vec![
        header(),
        leave_row("Nowak Jan 12345678901"),
        leave_row("Lis Ewa 99999999999"),
    ];
    let out = m.merge_rows(&roster_sheet(), &leave);
    assert_eq!(out.common_count, 1);
    assert_eq!(out.rows.len(), 1);
    assert_eq!(out.rows[0].pesel, "12345678901");
}

#[test]
fn header_only_leave_sheet_gives_empty_output() {
    let mut m = ExcelMerger::new();
    let out = m.merge_rows(&roster_sheet(), &vec![header()]);
    assert_eq!(out.common_count, 0);
    assert!(out.rows.is_empty());
    assert_eq!(out.headers.len(), 8);
    let out2 = m.merge_rows(&roster_sheet(), &vec![]);
    assert_eq!(out2.common_count, 0);
    assert!(out2.rows.is_empty());
}

#[test]
fn merge_twice_gives_same_rows() {
    let leave = vec![
        header(),
        leave_row("Nowak Jan 12345678901"),
        leave_row("Nowak Jan 12345678901"),
    ];
    let mut m = ExcelMerger::new();
    let a = m.merge_rows(&roster_sheet(), &leave);
    let b = m.merge_rows(&roster_sheet(), &leave);
    assert_eq!(a.rows.len(), 2);
    assert_eq!(a.rows.len(), b.rows.len());
    for (x, y) in a.rows.iter().zip(b.rows.iter()) {
        assert_eq!(x.pesel, y.pesel);
        assert_eq!(x.nazwisko, y.nazwisko);
        assert_eq!(x.data_od, y.data_od);
        assert_eq!(x.status, y.status);
    }
    assert_eq!(a.common_count, b.common_count);
}

#[test]
fn duplicate_ids_counted_once() {
    let data = vec![
        record("1", Source::Roster),
        record("1", Source::Roster),
        record("1", Source::Leave),
        record("1", Source::Leave),
        record("2", Source::Roster),
        record("3", Source::Leave),
    ];
    let common = find_common_pesels(&data);
    assert_eq!(common, vec!["1".to_string()]);
    let kept = filter_leave(&data, &common);
    assert_eq!(kept.len(), 2);
    assert!(kept.iter().all(|e| e.source == Source::Leave && e.pesel == "1"));
}

#[test]
fn common_set_same_with_roles_swapped() {
    let data = vec![
        record("1", Source::Roster),
        record("2", Source::Roster),
        record("2", Source::Leave),
        record("3", Source::Leave),
        record("1", Source::Leave),
    ];
    let swapped: Vec<EmployeeData> = data
        .iter()
        .map(|e| {
            let mut s = e.clone();
            s.source = if e.source == Source::Roster { Source::Leave } else { Source::Roster };
            s
        })
        .collect();
    let mut a = find_common_pesels(&data);
    let mut b = find_common_pesels(&swapped);
    a.sort();
    b.sort();
    assert_eq!(a, vec!["1".to_string(), "2".to_string()]);
    assert_eq!(a, b);
}

#[test]
fn messages_are_appended() {
    let mut m = ExcelMerger::new();
    assert!(m.messages.is_empty());
    m.log_message("start".to_string());
    m.merge_rows(&roster_sheet(), &vec![header(), leave_row("Nowak Jan 12345678901")]);
    assert_eq!(m.messages[0], "start");
    assert!(m.messages.iter().any(|s| s == "Common id numbers: 1"));
    assert!(m.messages.iter().any(|s| s == "Roster id numbers read: 1"));
}

#[test]
fn extension_kinds() {
    assert_eq!(workbook_kind("XLSX"), WorkbookKind::Xlsx);
    assert_eq!(workbook_kind("Xls"), WorkbookKind::Xls);
    assert_eq!(workbook_kind("csv"), WorkbookKind::Unsupported);
    assert_eq!(workbook_kind(""), WorkbookKind::Unsupported);
    assert_eq!(workbook_kind_of_lower("XLSX"), WorkbookKind::Unsupported);
    assert_eq!(workbook_kind_of_lower("xlsx"), WorkbookKind::Xlsx);
}

#[test]
fn header_labels_in_order() {
    assert_eq!(
        header_row(),
        vec![
            "Last Name",
            "First Name",
            "ID Number",
            "Date From",
            "Date To",
            "Care Flag",
            "Hospital Stay",
            "Certificate Status"
        ]
    );
    let widths: Vec<u16> = (0..8).map(column_width).collect();
    assert_eq!(widths, vec![20, 15, 12, 12, 12, 10, 15, 12]);
}

#[test]
fn output_row_layout() {
    let mut e = record("12345678901", Source::Leave);
    e.data_od = Some(45301);
    e.status = "Approved".to_string();
    let cells = output_row(&e);
    assert_eq!(cells.len(), 8);
    assert!(matches!(&cells[2], OutCell::Text(t) if t == "12345678901"));
    assert!(matches!(cells[3], OutCell::Date(45301)));
    assert!(matches!(cells[4], OutCell::BlankDate));
    assert!(matches!(&cells[7], OutCell::Text(t) if t == "Approved"));
}

#[test]
fn table_writes_to_worksheet() {
    let mut sheet = new_worksheet();
    let mut m = ExcelMerger::new();
    let out = m.merge_rows(&roster_sheet(), &vec![header(), leave_row("Nowak Jan 12345678901")]);
    assert!(write_headers(&mut sheet, &out.headers, &header_format()).is_ok());
    assert!(write_data(&mut sheet, &out.rows, &date_format()).is_ok());
}

#[test]
fn header_write_past_last_column_fails() {
    let mut sheet = rust_xlsxwriter::Worksheet::new();
    let headers: Vec<String> = (0..16385).map(|i| format!("h{}", i)).collect();
    let err = write_headers(&mut sheet, &headers, &header_format()).unwrap_err();
    assert_eq!(err.row, 0);
    assert_eq!(err.col, 16384);
}

#[test]
fn data_write_refuses_overlong_text() {
    let mut sheet = new_worksheet();
    let mut e = record("12345678901", Source::Leave);
    e.status = "x".repeat(32768);
    let err = write_data(&mut sheet, &vec![e], &date_format()).unwrap_err();
    assert_eq!(err.row, 1);
    assert_eq!(err.col, 7);
}

#[test]
fn data_write_skips_roster_records() {
    let mut sheet = new_worksheet();
    let mut e = record("12345678901", Source::Roster);
    e.status = "x".repeat(32768);
    assert!(write_data(&mut sheet, &vec![e], &date_format()).is_ok());
    assert!(write_data(&mut new_worksheet(), &vec![], &date_format()).is_ok());
}

#[test]
fn messages_report_counts() {
    let mut m = ExcelMerger::new();
    let leave = vec![header(), leave_row("Nowak Jan 12345678901"), leave_row("Lis Ewa 99999999999")];
    m.merge_rows(&roster_sheet(), &leave);
    assert_eq!(
        m.messages,
        vec![
            "Reading the roster sheet",
            "Roster id numbers read: 1",
            "Reading the leave sheet",
            "Leave id numbers read: 2",
            "Common id numbers: 1"
        ]
    );
}
