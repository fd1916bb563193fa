use l4_filter::record::{
    is_white_space, leading_words, leave_record, parse_leave_row, parse_leave_rows,
    parse_roster_row, parse_roster_rows,
};
use l4_filter::{Cell, Source};

fn text(s: &str) -> Cell {
    Cell::Text(s.to_string())
}

fn leave_row(first: &str) -> Vec<Cell> {
    vec![
        text(first),
        text("x"),
        text("y"),
        text("2024-01-10"),
        text("2024-01-20"),
        text("Yes"),
        text("No"),
        text("Approved"),
    ]
}

#[test]
fn roster_row_with_three_texts() {
    let e = parse_roster_row(&vec![text("Nowak"), text("Jan"), text("12345678901")]).unwrap();
    assert_eq!(e.nazwisko, "Nowak");
    assert_eq!(e.imie, "Jan");
    assert_eq!(e.pesel, "12345678901");
    assert_eq!(e.data_od, None);
    assert_eq!(e.data_do, None);
    assert_eq!(e.na_opieke, "");
    assert_eq!(e.pobyt_w_szpitalu, "");
    assert_eq!(e.status, "");
    assert_eq!(e.source, Source::Roster);
}

#[test]
fn roster_row_shape_mismatch_is_skipped() {
    assert!(parse_roster_row(&vec![text("Nowak"), text("Jan"), Cell::Number]).is_none());
    assert!(parse_roster_row(&vec![text("Nowak"), Cell::Empty, text("1")]).is_none());
    assert!(parse_roster_row(&vec![text("Nowak"), text("Jan")]).is_none());
    assert!(parse_roster_row(&vec![]).is_none());
}

#[test]
fn leave_row_scenario_fields() {
    let e = parse_leave_row(&leave_row("Nowak Jan 12345678901")).unwrap();
    assert_eq!(e.nazwisko, "Nowak");
    assert_eq!(e.imie, "Jan");
    assert_eq!(e.pesel, "12345678901");
    assert_eq!(e.data_od, Some(45301));
    assert_eq!(e.data_do, Some(45311));
    assert_eq!(e.na_opieke, "Yes");
    assert_eq!(e.pobyt_w_szpitalu, "No");
    assert_eq!(e.status, "Approved");
    assert_eq!(e.source, Source::Leave);
}

#[test]
fn leave_row_needs_space_and_exactly_eleven_digits() {
    assert!(parse_leave_row(&leave_row("Nowak12345678901")).is_none());
    assert!(parse_leave_row(&leave_row("Nowak Jan 123456789012")).is_none());
    assert!(parse_leave_row(&leave_row("Nowak Jan 1234567890")).is_none());
    assert!(parse_leave_row(&leave_row("Nowak Jan 12345678901 ")).is_none());
    assert!(parse_leave_row(&vec![Cell::Number, text("x")]).is_none());
    assert!(parse_leave_row(&vec![]).is_none());
}

#[test]
fn leave_row_single_word_name() {
    let e = parse_leave_row(&vec![text("Nowak 98765432109")]).unwrap();
    assert_eq!(e.nazwisko, "Nowak");
    assert_eq!(e.imie, "");
    assert_eq!(e.pesel, "98765432109");
    assert_eq!(e.data_od, None);
    assert_eq!(e.data_do, None);
    assert_eq!(e.status, "");
}

#[test]
fn leave_row_missing_or_bad_cells_default() {
    let row = vec![
        text("Kowalska Anna 11111111111"),
        Cell::Empty,
        Cell::Empty,
        Cell::Number,
        text("2024-02-30"),
        Cell::Other,
    ];
    let e = parse_leave_row(&row).unwrap();
    assert_eq!(e.data_od, None);
    assert_eq!(e.data_do, None);
    assert_eq!(e.na_opieke, "");
    assert_eq!(e.pobyt_w_szpitalu, "");
    assert_eq!(e.status, "");
}

#[test]
fn leave_names_come_from_text_before_id() {
    let e = parse_leave_row(&vec![text("Kowalski 12345678901")]).unwrap();
    assert_eq!(e.nazwisko, "Kowalski");
    assert_eq!(e.imie, "");
    let e = parse_leave_row(&vec![text("Nowak Jan Maria 12345678901")]).unwrap();
    assert_eq!(e.nazwisko, "Nowak");
    assert_eq!(e.imie, "Jan");
    let e = leave_record(&vec![text("1")], "12345678901".to_string());
    assert_eq!(e.nazwisko, "");
}

#[test]
fn leave_record_uses_given_id() {
    let e = leave_record(&leave_row("Nowak Jan 12345678901"), "00000000000".to_string());
    assert_eq!(e.pesel, "00000000000");
    assert_eq!(e.nazwisko, "Nowak");
}

#[test]
fn words_split_on_unicode_white_space() {
    assert_eq!(leading_words("Nowak Jan 1"), ("Nowak".to_string(), "Jan".to_string()));
    assert_eq!(leading_words("  A\tB  C"), ("A".to_string(), "B".to_string()));
    assert_eq!(leading_words("A\u{3000}B"), ("A".to_string(), "B".to_string()));
    assert_eq!(leading_words("Solo"), ("Solo".to_string(), String::new()));
    assert_eq!(leading_words("   "), (String::new(), String::new()));
    assert!(is_white_space('\u{a0}'));
    assert!(!is_white_space('x'));
}

#[test]
fn sheets_skip_header_row() {
    let roster = vec![
        vec![text("Nazwisko"), text("Imie"), text("PESEL")],
        vec![text("Nowak"), text("Jan"), text("12345678901")],
        vec![Cell::Empty],
        vec![text("Lis"), text("Ewa"), text("22222222222")],
    ];
    let r = parse_roster_rows(&roster);
    assert_eq!(r.len(), 2);
    assert_eq!(r[1].pesel, "22222222222");
    let leave = vec![leave_row("Header 33333333333"), leave_row("Nowak Jan 12345678901")];
    let l = parse_leave_rows(&leave);
    assert_eq!(l.len(), 1);
    assert_eq!(l[0].pesel, "12345678901");
    assert!(parse_roster_rows(&vec![]).is_empty());
}
