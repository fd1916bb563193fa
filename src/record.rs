//! Cells, unified records, and the two row rules that turn sheet rows into records.
use vstd::prelude::*;
use crate::date::{date_serial_of, parse_date};

verus! {

/// A spreadsheet cell as the row rules see it.
#[derive(Clone, Debug)]
pub enum Cell {
    Text(String),
    Number,
    Empty,
    Other,
}

/// Which input a record was read from.
#[derive(Clone, Copy, Debug, PartialEq, Eq, Structural)]
pub enum Source {
    Roster,
    Leave,
}

/// One person-event entry read from a roster or a leave row.
#[derive(Clone, Debug)]
pub struct EmployeeData {
    pub nazwisko: String,
    pub imie: String,
    pub pesel: String,
    pub data_od: Option<i32>,
    pub data_do: Option<i32>,
    pub na_opieke: String,
    pub pobyt_w_szpitalu: String,
    pub status: String,
    pub source: Source,
}

/// The mathematical content of an `EmployeeData`.
pub struct EmployeeView {
    pub nazwisko: Seq<char>,
    pub imie: Seq<char>,
    pub pesel: Seq<char>,
    pub data_od: Option<int>,
    pub data_do: Option<int>,
    pub na_opieke: Seq<char>,
    pub pobyt_w_szpitalu: Seq<char>,
    pub status: Seq<char>,
    pub source: Source,
}

pub open spec fn opt_int(o: Option<i32>) -> Option<int> {
    match o {
        Some(v) => Some(v as int),
        None => None,
    }
}

impl View for EmployeeData {
    type V = EmployeeView;

    open spec fn view(&self) -> EmployeeView {
        EmployeeView {
            nazwisko: self.nazwisko@,
            imie: self.imie@,
            pesel: self.pesel@,
            data_od: opt_int(self.data_od),
            data_do: opt_int(self.data_do),
            na_opieke: self.na_opieke@,
            pobyt_w_szpitalu: self.pobyt_w_szpitalu@,
            status: self.status@,
            source: self.source,
        }
    }
}

impl EmployeeData {
    /// A field-by-field copy.
    pub fn duplicate(&self) -> (r: EmployeeData)
        ensures
            r@ == self@,
    {
        EmployeeData {
            nazwisko: self.nazwisko.clone(),
            imie: self.imie.clone(),
            pesel: self.pesel.clone(),
            data_od: self.data_od,
            data_do: self.data_do,
            na_opieke: self.na_opieke.clone(),
            pobyt_w_szpitalu: self.pobyt_w_szpitalu.clone(),
            status: self.status.clone(),
            source: self.source,
        }
    }
}

impl EmployeeView {
    /// A roster record carries no leave data; a leave record may carry any of it.
    pub open spec fn wf(self) -> bool {
        self.source == Source::Roster ==> {
            &&& self.data_od is None
            &&& self.data_do is None
            &&& self.na_opieke.len() == 0
            &&& self.pobyt_w_szpitalu.len() == 0
            &&& self.status.len() == 0
        }
    }
}

pub open spec fn views(s: Seq<EmployeeData>) -> Seq<EmployeeView> {
    s.map_values(|e: EmployeeData| e@)
}

/// The text of cell `i` of a row, if that cell exists and holds text.
pub open spec fn text_at(row: Seq<Cell>, i: int) -> Option<Seq<char>> {
    if 0 <= i < row.len() {
        match row[i] {
            Cell::Text(s) => Some(s@),
            _ => None,
        }
    } else {
        None
    }
}

pub open spec fn text_or_empty(row: Seq<Cell>, i: int) -> Seq<char> {
    match text_at(row, i) {
        Some(t) => t,
        None => Seq::empty(),
    }
}

/// Unicode's White_Space characters, which `char::is_whitespace` recognises.
pub open spec fn is_white(c: char) -> bool {
    ||| ('\t' <= c <= '\r')
    ||| c == ' '
    ||| c == '\u{85}'
    ||| c == '\u{a0}'
    ||| c == '\u{1680}'
    ||| ('\u{2000}' <= c <= '\u{200a}')
    ||| c == '\u{2028}'
    ||| c == '\u{2029}'
    ||| c == '\u{202f}'
    ||| c == '\u{205f}'
    ||| c == '\u{3000}'
}

/// The maximal runs of non-white characters of `s`, as `str::split_whitespace` gives them.
pub open spec fn words(s: Seq<char>) -> Seq<Seq<char>>
    decreases s.len(),
{
    if s.len() == 0 {
        Seq::empty()
    } else {
        let w = words(s.drop_last());
        if is_white(s.last()) {
            w
        } else if s.len() >= 2 && !is_white(s[s.len() - 2]) {
            w.update(w.len() - 1, w.last().push(s.last()))
        } else {
            w.push(seq![s.last()])
        }
    }
}

pub open spec fn word_or_empty(s: Seq<char>, i: int) -> Seq<char> {
    if 0 <= i < words(s).len() {
        words(s)[i]
    } else {
        Seq::empty()
    }
}

/// The record a roster row gives: its first three cells must hold text.
pub open spec fn roster_view(row: Seq<Cell>) -> Option<EmployeeView> {
    match (text_at(row, 0), text_at(row, 1), text_at(row, 2)) {
        (Some(last), Some(first), Some(id)) => Some(
            EmployeeView {
                nazwisko: last,
                imie: first,
                pesel: id,
                data_od: None,
                data_do: None,
                na_opieke: Seq::empty(),
                pobyt_w_szpitalu: Seq::empty(),
                status: Seq::empty(),
                source: Source::Roster,
            },
        ),
        _ => None,
    }
}

/// The text of `cell` before its last `id.len()` characters, where the id stands.
pub open spec fn name_part(cell: Seq<char>, id: Seq<char>) -> Seq<char> {
    if id.len() <= cell.len() {
        cell.subrange(0, cell.len() - id.len())
    } else {
        Seq::empty()
    }
}

/// The record a leave row gives once its id number `id`, which ends the first
/// cell, has been found: the names are the first two words before the id.
pub open spec fn leave_view(row: Seq<Cell>, id: Seq<char>) -> EmployeeView {
    let name = name_part(text_or_empty(row, 0), id);
    EmployeeView {
        nazwisko: word_or_empty(name, 0),
        imie: word_or_empty(name, 1),
        pesel: id,
        data_od: date_serial_of(text_or_empty(row, 3)),
        data_do: date_serial_of(text_or_empty(row, 4)),
        na_opieke: text_or_empty(row, 5),
        pobyt_w_szpitalu: text_or_empty(row, 6),
        status: text_or_empty(row, 7),
        source: Source::Leave,
    }
}

/// The pattern that finds the 11-digit id number at the end of a leave row's first cell.
pub const ID_PATTERN: &'static str = r".*\s(\d{11})$";

/// What `regex` captures as group `group` of the first match of `pattern` in `text`.
pub uninterp spec fn regex_capture(pattern: Seq<char>, text: Seq<char>, group: nat) -> Option<
    Seq<char>,
>;

/// Relies on `regex::Regex::new` and `Regex::captures`: the text of capture group
/// `group` in the first match, or `None` when the pattern does not compile, does
/// not match, or the group took no part in the match. For the id pattern, whose
/// `$` ends the text, group 1 is the last 11 characters, which follow one white
/// space character.
#[verifier::external_body]
fn capture_group(pattern: &str, text: &str, group: usize) -> (r: Option<String>)
    ensures
        r is Some <==> regex_capture(pattern@, text@, group as nat) is Some,
        r is Some ==> r.unwrap()@ == regex_capture(pattern@, text@, group as nat).unwrap(),
        (r is Some && pattern@ == ID_PATTERN@ && group == 1) ==> (text@.len() >= 12 && r.unwrap()@ == text@.subrange(text@.len() - 11, text@.len() as int) && is_white(text@[text@.len() - 12])),
{
    let re = regex::Regex::new(pattern).ok()?;
    let caps = re.captures(text)?;
    Some(caps.get(group)?.as_str().to_string())
}

/// The record a leave row gives: its first cell must hold text whose end the
/// id pattern captures.
pub open spec fn leave_row_view(row: Seq<Cell>) -> Option<EmployeeView> {
    match text_at(row, 0) {
        Some(t) => match regex_capture(ID_PATTERN@, t, 1) {
            Some(id) => Some(leave_view(row, id)),
            None => None,
        },
        None => None,
    }
}

/// Records of a roster sheet, header row skipped, rows that fail the rule dropped.
pub open spec fn roster_records(rows: Seq<Vec<Cell>>) -> Seq<EmployeeView>
    decreases rows.len(),
{
    if rows.len() <= 1 {
        Seq::empty()
    } else {
        let prev = roster_records(rows.drop_last());
        match roster_view(rows.last()@) {
            Some(v) => prev.push(v),
            None => prev,
        }
    }
}

/// Records of a leave sheet, header row skipped, rows that fail the rule dropped.
pub open spec fn leave_records(rows: Seq<Vec<Cell>>) -> Seq<EmployeeView>
    decreases rows.len(),
{
    if rows.len() <= 1 {
        Seq::empty()
    } else {
        let prev = leave_records(rows.drop_last());
        match leave_row_view(rows.last()@) {
            Some(v) => prev.push(v),
            None => prev,
        }
    }
}

/// Whether `c` is white space in Unicode's sense.
pub fn is_white_space(c: char) -> (r: bool)
    ensures
        r == is_white(c),
{
    ('\t' <= c && c <= '\r') || c == ' ' || c == '\u{85}' || c == '\u{a0}' || c == '\u{1680}' || (
    '\u{2000}' <= c && c <= '\u{200a}') || c == '\u{2028}' || c == '\u{2029}' || c == '\u{202f}'
        || c == '\u{205f}' || c == '\u{3000}'
}

/// Character ranges of the words of `s`.
fn word_ranges(s: &str) -> (r: Vec<(usize, usize)>)
    ensures
        r@.len() == words(s@).len(),
        forall|k: int| #![trigger r@[k]] 0 <= k < r@.len() ==> r@[k].0 <= r@[k].1 <= s@.len(),
        forall|k: int|
            0 <= k < r@.len() ==> s@.subrange(r@[k].0 as int, r@[k].1 as int) == #[trigger] words(
                s@,
            )[k],
{
    let n = s.unicode_len();
    let mut r: Vec<(usize, usize)> = Vec::new();
    let mut i: usize = 0;
    assert(s@.subrange(0, 0) =~= Seq::<char>::empty());
    while i < n
        invariant
            i <= n,
            n == s@.len(),
            r@.len() == words(s@.subrange(0, i as int)).len(),
            forall|k: int| #![trigger r@[k]] 0 <= k < r@.len() ==> r@[k].0 <= r@[k].1 <= i,
            forall|k: int|
                0 <= k < r@.len() ==> s@.subrange(r@[k].0 as int, r@[k].1 as int) == #[trigger] words(
                    s@.subrange(0, i as int),
                )[k],
            (i > 0 && !is_white(s@[i - 1])) ==> (r@.len() >= 1 && r@.last().1 == i),
        decreases n - i,
    {
        let c = s.get_char(i);
        let ghost before = words(s@.subrange(0, i as int));
        let ghost old_r = r@;
        let ghost pre = s@.subrange(0, i + 1);
        assert(pre.drop_last() =~= s@.subrange(0, i as int));
        assert(pre.last() == c);
        if is_white_space(c) {
            assert(words(pre) == before);
        } else if i > 0 && !is_white_space(s.get_char(i - 1)) {
            assert(pre[pre.len() - 2] == s@[i - 1]);
            let last = r.len() - 1;
            let (a, _) = r[last];
            assert(r@[last as int].0 <= r@[last as int].1);
            assert(a <= i);
            assert(s@.subrange(a as int, i as int) == words(s@.subrange(0, i as int))[last as int]);
            r.set(last, (a, i + 1));
            proof {
                assert(words(pre) == before.update(before.len() - 1, before.last().push(c)));
                assert(s@.subrange(a as int, i + 1) =~= s@.subrange(a as int, i as int).push(c));
                assert forall|k: int| #![trigger r@[k]] 0 <= k < r@.len() implies r@[k].0 <= r@[k].1
                    <= i + 1 by {
                    if k < last {
                        assert(r@[k] == old_r[k]);
                    }
                }
                assert forall|k: int| 0 <= k < r@.len() implies s@.subrange(
                    r@[k].0 as int,
                    r@[k].1 as int,
                ) == #[trigger] words(pre)[k] by {
                    if k < last {
                        assert(r@[k] == old_r[k]);
                        assert(words(pre)[k] == before[k]);
                    }
                }
            }
        } else {
            r.push((i, i + 1));
            proof {
                if i > 0 {
                    assert(pre[pre.len() - 2] == s@[i - 1]);
                }
                assert(words(pre) == before.push(seq![c]));
                assert(s@.subrange(i as int, i + 1) =~= seq![c]);
                assert forall|k: int| #![trigger r@[k]] 0 <= k < r@.len() implies r@[k].0 <= r@[k].1
                    <= i + 1 by {
                    if k < old_r.len() {
                        assert(r@[k] == old_r[k]);
                    }
                }
                assert forall|k: int| 0 <= k < r@.len() implies s@.subrange(
                    r@[k].0 as int,
                    r@[k].1 as int,
                ) == #[trigger] words(pre)[k] by {
                    if k < old_r.len() {
                        assert(r@[k] == old_r[k]);
                        assert(words(pre)[k] == before[k]);
                    }
                }
            }
        }
        i = i + 1;
        assert(pre =~= s@.subrange(0, i as int));
        assert(s@[i - 1] == c);
    }
    assert(s@.subrange(0, n as int) =~= s@);
    assert(words(s@.subrange(0, n as int)) == words(s@));
    r
}

/// The first two words of `s`, each empty when `s` has fewer words.
pub fn leading_words(s: &str) -> (r: (String, String))
    ensures
        r.0@ == word_or_empty(s@, 0),
        r.1@ == word_or_empty(s@, 1),
{
    let ranges = word_ranges(s);
    let first = if ranges.len() > 0 {
        String::from_str(s.substring_char(ranges[0].0, ranges[0].1))
    } else {
        String::new()
    };
    let second = if ranges.len() > 1 {
        String::from_str(s.substring_char(ranges[1].0, ranges[1].1))
    } else {
        String::new()
    };
    (first, second)
}

/// The text of cell `i`, or empty text when the cell is missing or holds no text.
fn text_or_empty_at(row: &Vec<Cell>, i: usize) -> (r: String)
    ensures
        r@ == text_or_empty(row@, i as int),
{
    if i < row.len() {
        match &row[i] {
            Cell::Text(t) => t.clone(),
            _ => String::new(),
        }
    } else {
        String::new()
    }
}

/// Reads a roster row: last name, first name and id number from its first three
/// cells, which must all hold text.
pub fn parse_roster_row(row: &Vec<Cell>) -> (r: Option<EmployeeData>)
    ensures
        match roster_view(row@) {
            Some(v) => r is Some && r.unwrap()@ == v,
            None => r is None,
        },
        r matches Some(e) ==> e@.wf(),
{
    if row.len() < 3 {
        return None;
    }
    match (&row[0], &row[1], &row[2]) {
        (Cell::Text(last), Cell::Text(first), Cell::Text(id)) => Some(
            EmployeeData {
                nazwisko: last.clone(),
                imie: first.clone(),
                pesel: id.clone(),
                data_od: None,
                data_do: None,
                na_opieke: String::new(),
                pobyt_w_szpitalu: String::new(),
                status: String::new(),
                source: Source::Roster,
            },
        ),
        _ => None,
    }
}

/// Builds the record of a leave row whose id number `pesel` has been found: the
/// first two words of the first cell's text before the id as names, cells 3
/// and 4 as dates, cells 5 to 7 as text.
pub fn leave_record(row: &Vec<Cell>, pesel: String) -> (r: EmployeeData)
    ensures
        r@ == leave_view(row@, pesel@),
{
    let cell = text_or_empty_at(row, 0);
    let n = cell.as_str().unicode_len();
    let k = pesel.as_str().unicode_len();
    let head = if k <= n {
        cell.as_str().substring_char(0, n - k)
    } else {
        ""
    };
    proof {
        reveal_strlit("");
    }
    assert(head@ == name_part(cell@, pesel@));
    let (last, first) = leading_words(head);
    let from_text = text_or_empty_at(row, 3);
    let to_text = text_or_empty_at(row, 4);
    let data_od = parse_date(from_text.as_str());
    let data_do = parse_date(to_text.as_str());
    assert(opt_int(data_od) == date_serial_of(from_text@));
    assert(opt_int(data_do) == date_serial_of(to_text@));
    EmployeeData {
        nazwisko: last,
        imie: first,
        pesel,
        data_od,
        data_do,
        na_opieke: text_or_empty_at(row, 5),
        pobyt_w_szpitalu: text_or_empty_at(row, 6),
        status: text_or_empty_at(row, 7),
        source: Source::Leave,
    }
}

/// The text `t` ends with one white-space character followed by the 11
/// characters of `id`.
pub open spec fn ends_with_id(t: Seq<char>, id: Seq<char>) -> bool {
    &&& t.len() >= 12
    &&& id.len() == 11
    &&& id == t.subrange(t.len() - 11, t.len() as int)
    &&& is_white(t[t.len() - 12])
}

/// Reads a leave row: its first cell must hold text that ends in white space
/// and an 11-digit id number.
pub fn parse_leave_row(row: &Vec<Cell>) -> (r: Option<EmployeeData>)
    ensures
        match leave_row_view(row@) {
            Some(v) => r is Some && r.unwrap()@ == v,
            None => r is None,
        },
        r matches Some(e) ==> e@.wf(),
        r matches Some(e) ==> (text_at(row@, 0) is Some && ends_with_id(text_at(row@, 0).unwrap(), e.pesel@)),
{
    if row.len() == 0 {
        return None;
    }
    match &row[0] {
        Cell::Text(t) => match capture_group(ID_PATTERN, t.as_str(), 1) {
            Some(id) => Some(leave_record(row, id)),
            None => None,
        },
        _ => None,
    }
}

/// Reads every roster row after the header.
pub fn parse_roster_rows(rows: &Vec<Vec<Cell>>) -> (r: Vec<EmployeeData>)
    ensures
        views(r@) == roster_records(rows@),
{
    let mut r: Vec<EmployeeData> = Vec::new();
    if rows.len() == 0 {
        assert(views(r@) =~= Seq::<EmployeeView>::empty());
        return r;
    }
    let mut i: usize = 1;
    assert(views(r@) =~= roster_records(rows@.subrange(0, 1)));
    while i < rows.len()
        invariant
            1 <= i <= rows@.len(),
            views(r@) == roster_records(rows@.subrange(0, i as int)),
        decreases rows@.len() - i,
    {
        let ghost pre = rows@.subrange(0, i + 1);
        assert(pre.drop_last() =~= rows@.subrange(0, i as int));
        let ghost old_r = r@;
        match parse_roster_row(&rows[i]) {
            Some(e) => {
                r.push(e);
                assert(views(r@) =~= views(old_r).push(e@));
            },
            None => {},
        }
        i = i + 1;
        assert(pre =~= rows@.subrange(0, i as int));
    }
    assert(rows@.subrange(0, rows@.len() as int) =~= rows@);
    r
}

/// Reads every leave row after the header.
pub fn parse_leave_rows(rows: &Vec<Vec<Cell>>) -> (r: Vec<EmployeeData>)
    ensures
        views(r@) == leave_records(rows@),
        forall|k: int|
            0 <= k < r@.len() ==> exists|i: int|
                1 <= i < rows@.len() && text_at(rows@[i]@, 0) is Some && ends_with_id(
                    text_at(#[trigger] rows@[i]@, 0).unwrap(),
                    (#[trigger] r@[k]).pesel@,
                ),
{
    let mut r: Vec<EmployeeData> = Vec::new();
    if rows.len() == 0 {
        assert(views(r@) =~= Seq::<EmployeeView>::empty());
        return r;
    }
    let mut i: usize = 1;
    assert(views(r@) =~= leave_records(rows@.subrange(0, 1)));
    while i < rows.len()
        invariant
            1 <= i <= rows@.len(),
            views(r@) == leave_records(rows@.subrange(0, i as int)),
            forall|k: int|
                0 <= k < r@.len() ==> exists|j: int|
                    1 <= j < rows@.len() && text_at(rows@[j]@, 0) is Some && ends_with_id(
                        text_at(#[trigger] rows@[j]@, 0).unwrap(),
                        (#[trigger] r@[k]).pesel@,
                    ),
        decreases rows@.len() - i,
    {
        let ghost pre = rows@.subrange(0, i + 1);
        assert(pre.drop_last() =~= rows@.subrange(0, i as int));
        let ghost old_r = r@;
        match parse_leave_row(&rows[i]) {
            Some(e) => {
                r.push(e);
                assert(views(r@) =~= views(old_r).push(e@));
                assert forall|k: int| 0 <= k < r@.len() implies exists|j: int|
                    1 <= j < rows@.len() && text_at(rows@[j]@, 0) is Some && ends_with_id(
                        text_at(#[trigger] rows@[j]@, 0).unwrap(),
                        (#[trigger] r@[k]).pesel@,
                    ) by {
                    if k == old_r.len() {
                        assert(r@[k] == e);
                        assert(rows@[i as int] == rows[i as int]);
                    } else {
                        assert(r@[k] == old_r[k]);
                    }
                }
            },
            None => {},
        }
        i = i + 1;
        assert(pre =~= rows@.subrange(0, i as int));
    }
    assert(rows@.subrange(0, rows@.len() as int) =~= rows@);
    r
}

} // verus!
