//! The reconciliation run: parse both sheets, find the common id numbers, keep
//! the matching leave records, and report progress as text lines.
use vstd::prelude::*;
use crate::record::{
    Cell, EmployeeData, EmployeeView, Source, leave_records, leave_row_view, parse_leave_rows,
    parse_roster_rows, roster_records, views,
};
use crate::reconcile::{
    common_ids, filter_leave, find_common_pesels, id_seq, ids_of, kept, kept_pred, leave_only,
    leave_pred, lemma_output_exact, lemma_unmatched_leave_record,
};
use crate::table::{header_labels, header_row};

verus! {

/// All records of a run: the roster sheet's, then the leave sheet's.
pub open spec fn merged_records(roster_rows: Seq<Vec<Cell>>, leave_rows: Seq<Vec<Cell>>) -> Seq<
    EmployeeView,
> {
    roster_records(roster_rows) + leave_records(leave_rows)
}

/// The records a run outputs.
pub open spec fn merge_output(roster_rows: Seq<Vec<Cell>>, leave_rows: Seq<Vec<Cell>>) -> Seq<
    EmployeeView,
> {
    let all = merged_records(roster_rows, leave_rows);
    kept(all, common_ids(all))
}

pub open spec fn digit_char(d: int) -> char {
    seq!['0', '1', '2', '3', '4', '5', '6', '7', '8', '9'][d]
}

/// The decimal digits of `n`.
pub open spec fn decimal(n: nat) -> Seq<char>
    decreases n,
{
    if n < 10 {
        seq![digit_char(n as int)]
    } else {
        decimal(n / 10).push(digit_char((n % 10) as int))
    }
}

/// Relies on `format!` and `usize`'s `Display`: `prefix` followed by the decimal digits of `n`.
#[verifier::external_body]
fn with_count(prefix: &str, n: usize) -> (r: String)
    ensures
        r@ == prefix@ + decimal(n as nat),
{
    format!("{}{}", prefix, n)
}

/// The progress lines of a run: the records read from each sheet and the
/// number of common id numbers.
pub open spec fn run_report(roster_rows: Seq<Vec<Cell>>, leave_rows: Seq<Vec<Cell>>) -> Seq<Seq<char>> {
    seq![
        "Reading the roster sheet"@,
        "Roster id numbers read: "@ + decimal(roster_records(roster_rows).len()),
        "Reading the leave sheet"@,
        "Leave id numbers read: "@ + decimal(leave_records(leave_rows).len()),
        "Common id numbers: "@ + decimal(common_ids(merged_records(roster_rows, leave_rows)).len()),
    ]
}

/// The result of a run: the header labels, the kept leave records, and how
/// many id numbers the two sources share.
pub struct MergeOutcome {
    pub headers: Vec<String>,
    pub rows: Vec<EmployeeData>,
    pub common_count: usize,
}

/// Runs reconciliations and collects their progress lines.
pub struct ExcelMerger {
    pub messages: Vec<String>,
}

impl ExcelMerger {
    pub fn new() -> (r: Self)
        ensures
            r.messages@.len() == 0,
    {
        ExcelMerger { messages: Vec::new() }
    }

    /// Appends a progress line.
    pub fn log_message(&mut self, message: String)
        ensures
            final(self).messages@ == old(self).messages@.push(message),
    {
        self.messages.push(message);
    }

    /// Reconciles a roster sheet with a leave sheet, both given as rows of
    /// cells with a header row first: outputs the leave records whose id
    /// number appears in both, in the leave sheet's order.
    pub fn merge_rows(&mut self, roster_rows: &Vec<Vec<Cell>>, leave_rows: &Vec<Vec<Cell>>) -> (r:
        MergeOutcome)
        ensures
            r.headers@.map_values(|s: String| s@) == header_labels(),
            views(r.rows@) == merge_output(roster_rows@, leave_rows@),
            r.common_count as nat == common_ids(merged_records(roster_rows@, leave_rows@)).len(),
            final(self).messages@.len() >= old(self).messages@.len(),
            final(self).messages@.subrange(0, old(self).messages@.len() as int) == old(
                self,
            ).messages@,
            final(self).messages@.map_values(|s: String| s@) == old(self).messages@.map_values(|s: String| s@) + run_report(roster_rows@, leave_rows@),
    {
        let ghost start = self.messages@;
        self.log_message(String::from_str("Reading the roster sheet"));
        let mut data = parse_roster_rows(roster_rows);
        self.log_message(with_count("Roster id numbers read: ", data.len()));
        self.log_message(String::from_str("Reading the leave sheet"));
        let mut leave = parse_leave_rows(leave_rows);
        self.log_message(with_count("Leave id numbers read: ", leave.len()));
        let ghost roster_part = data@;
        let ghost leave_part = leave@;
        data.append(&mut leave);
        assert(views(data@) =~= views(roster_part) + views(leave_part));
        let common = find_common_pesels(&data);
        proof {
            id_seq(common@).unique_seq_to_set();
        }
        self.log_message(with_count("Common id numbers: ", common.len()));
        let rows = filter_leave(&data, &common);
        assert(self.messages@.subrange(0, start.len() as int) =~= start);
        assert(self.messages@.map_values(|s: String| s@) =~= start.map_values(|s: String| s@)
            + run_report(roster_rows@, leave_rows@));
        MergeOutcome { headers: header_row(), rows, common_count: common.len() }
    }
}

/// The spreadsheet formats that can be read.
#[derive(Clone, Copy, Debug, PartialEq, Eq, Structural)]
pub enum WorkbookKind {
    Xlsx,
    Xls,
    Unsupported,
}

/// The format that a lower-case file extension names.
pub open spec fn kind_of_lower(ext: Seq<char>) -> WorkbookKind {
    if ext == "xlsx"@ {
        WorkbookKind::Xlsx
    } else if ext == "xls"@ {
        WorkbookKind::Xls
    } else {
        WorkbookKind::Unsupported
    }
}

/// What `str::to_lowercase` gives for `s`.
pub uninterp spec fn lower_of(s: Seq<char>) -> Seq<char>;

/// Relies on `str::to_lowercase`: the lower-case form of `s`, which depends on
/// the characters of `s` alone.
#[verifier::external_body]
fn lowercase(s: &str) -> (r: String)
    ensures
        r@ == lower_of(s@),
{
    s.to_lowercase()
}

fn same_text(a: &str, b: &str) -> (r: bool)
    ensures
        r == (a@ == b@),
{
    let n = a.unicode_len();
    if n != b.unicode_len() {
        return false;
    }
    let mut i: usize = 0;
    while i < n
        invariant
            i <= n,
            n == a@.len(),
            n == b@.len(),
            forall|j: int| 0 <= j < i ==> a@[j] == b@[j],
        decreases n - i,
    {
        if a.get_char(i) != b.get_char(i) {
            return false;
        }
        i = i + 1;
    }
    assert(a@ =~= b@);
    true
}

/// The format that an already lower-cased file extension names.
pub fn workbook_kind_of_lower(ext: &str) -> (r: WorkbookKind)
    ensures
        r == kind_of_lower(ext@),
{
    if same_text(ext, "xlsx") {
        WorkbookKind::Xlsx
    } else if same_text(ext, "xls") {
        WorkbookKind::Xls
    } else {
        WorkbookKind::Unsupported
    }
}

/// The format that a file extension names, letter case aside.
pub fn workbook_kind(ext: &str) -> (r: WorkbookKind)
    ensures
        r == kind_of_lower(lower_of(ext@)),
{
    let lower = lowercase(ext);
    workbook_kind_of_lower(lower.as_str())
}

proof fn lemma_roster_records_are_roster(rows: Seq<Vec<Cell>>)
    ensures
        forall|k: int|
            0 <= k < roster_records(rows).len() ==> (#[trigger] roster_records(rows)[k]).source
                == Source::Roster,
    decreases rows.len(),
{
    if rows.len() > 1 {
        lemma_roster_records_are_roster(rows.drop_last());
    }
}

/// A leave sheet with no row under its header gives an empty output and no
/// common id number, whatever the roster holds.
pub proof fn lemma_header_only_leave_sheet(roster_rows: Seq<Vec<Cell>>, leave_rows: Seq<Vec<Cell>>)
    requires
        leave_rows.len() <= 1,
    ensures
        common_ids(merged_records(roster_rows, leave_rows)).len() == 0,
        merge_output(roster_rows, leave_rows).len() == 0,
{
    let all = merged_records(roster_rows, leave_rows);
    assert(leave_records(leave_rows) =~= Seq::<EmployeeView>::empty());
    assert(all =~= roster_records(roster_rows));
    lemma_roster_records_are_roster(roster_rows);
    assert(ids_of(all, Source::Leave) =~= Set::<Seq<char>>::empty());
    assert(common_ids(all) =~= Set::<Seq<char>>::empty());
    let out = merge_output(roster_rows, leave_rows);
    if out.len() > 0 {
        all.lemma_filter_pred(kept_pred(common_ids(all)), 0);
    }
}

/// Two runs on the same sheets output the same records, field for field.
pub proof fn lemma_merge_repeatable(
    roster_rows: Seq<Vec<Cell>>,
    leave_rows: Seq<Vec<Cell>>,
    first: Seq<EmployeeData>,
    second: Seq<EmployeeData>,
)
    requires
        views(first) == merge_output(roster_rows, leave_rows),
        views(second) == merge_output(roster_rows, leave_rows),
    ensures
        first.len() == second.len(),
        forall|k: int| 0 <= k < first.len() ==> (#[trigger] first[k])@ == second[k]@,
{
    assert(views(first).len() == first.len());
    assert(views(second).len() == second.len());
    assert forall|k: int| 0 <= k < first.len() implies (#[trigger] first[k])@ == second[k]@ by {
        assert(views(first)[k] == first[k]@);
        assert(views(second)[k] == second[k]@);
    }
}

proof fn lemma_no_leave_in_roster(s: Seq<EmployeeView>)
    requires
        forall|k: int| 0 <= k < s.len() ==> (#[trigger] s[k]).source == Source::Roster,
    ensures
        leave_only(s).len() == 0,
    decreases s.len(),
{
    reveal(Seq::filter);
    if s.len() > 0 {
        lemma_no_leave_in_roster(s.drop_last());
        assert(s.last() == s[s.len() - 1]);
    }
}

/// Every output record is one that the leave sheet yields, and there are no
/// more of them than the leave sheet yields records; no roster record is output.
pub proof fn lemma_output_from_leave_sheet(roster_rows: Seq<Vec<Cell>>, leave_rows: Seq<Vec<Cell>>)
    ensures
        forall|k: int|
            0 <= k < merge_output(roster_rows, leave_rows).len() ==> leave_records(leave_rows).contains(
                #[trigger] merge_output(roster_rows, leave_rows)[k],
            ),
        merge_output(roster_rows, leave_rows).len() <= leave_records(leave_rows).len(),
{
    let rr = roster_records(roster_rows);
    let lr = leave_records(leave_rows);
    let all = merged_records(roster_rows, leave_rows);
    let out = merge_output(roster_rows, leave_rows);
    lemma_output_exact(all);
    lemma_roster_records_are_roster(roster_rows);
    assert forall|k: int| 0 <= k < out.len() implies lr.contains(#[trigger] out[k]) by {
        let j = choose|j: int| 0 <= j < all.len() && all[j] == out[k];
        if j < rr.len() {
            assert(all[j] == rr[j]);
        } else {
            assert(all[j] == lr[j - rr.len()]);
        }
    }
    Seq::filter_distributes_over_add(rr, lr, leave_pred());
    lemma_no_leave_in_roster(rr);
    lr.lemma_filter_len(leave_pred());
}

proof fn lemma_leave_records_are_leave(rows: Seq<Vec<Cell>>)
    ensures
        forall|k: int|
            0 <= k < leave_records(rows).len() ==> (#[trigger] leave_records(rows)[k]).source
                == Source::Leave,
    decreases rows.len(),
{
    if rows.len() > 1 {
        lemma_leave_records_are_leave(rows.drop_last());
    }
}

/// Inserting a row into a leave sheet (after its header) inserts that row's
/// record, if it gives one, among the others at the place of the row.
proof fn lemma_leave_records_insert(rows: Seq<Vec<Cell>>, i: int, row: Vec<Cell>)
    requires
        1 <= i <= rows.len(),
    ensures
        leave_records(rows.subrange(0, i)).len() <= leave_records(rows).len(),
        leave_records(rows.insert(i, row)) == match leave_row_view(row@) {
            Some(v) => leave_records(rows).insert(leave_records(rows.subrange(0, i)).len() as int, v),
            None => leave_records(rows),
        },
    decreases rows.len(),
{
    let ins = rows.insert(i, row);
    if i == rows.len() {
        assert(rows.subrange(0, i) =~= rows);
        assert(ins.drop_last() =~= rows);
        assert(ins.last() == row);
        let lr = leave_records(rows);
        assert(lr.insert(lr.len() as int, leave_row_view(row@)->Some_0) =~= lr.push(leave_row_view(row@)->Some_0));
    } else {
        let d = rows.drop_last();
        lemma_leave_records_insert(d, i, row);
        assert(ins.drop_last() =~= d.insert(i, row));
        assert(ins.last() == rows.last());
        assert(d.subrange(0, i) =~= rows.subrange(0, i));
        let p = leave_records(rows.subrange(0, i)).len() as int;
        let ld = leave_records(d);
        match leave_row_view(row@) {
            Some(v) => {
                match leave_row_view(rows.last()@) {
                    Some(w) => {
                        assert(ld.insert(p, v).push(w) =~= ld.push(w).insert(p, v));
                    },
                    None => {},
                }
            },
            None => {},
        }
    }
}

/// A leave-sheet row whose record's id number no roster row has changes
/// neither the number of common id numbers nor the output, wherever it is
/// inserted after the header.
pub proof fn lemma_unmatched_leave_row(
    roster_rows: Seq<Vec<Cell>>,
    leave_rows: Seq<Vec<Cell>>,
    i: int,
    row: Vec<Cell>,
)
    requires
        1 <= i <= leave_rows.len(),
        leave_row_view(row@) matches Some(v) ==> !ids_of(roster_records(roster_rows), Source::Roster).contains(v.pesel),
    ensures
        common_ids(merged_records(roster_rows, leave_rows.insert(i, row))).len() == common_ids(merged_records(roster_rows, leave_rows)).len(),
        merge_output(roster_rows, leave_rows.insert(i, row)) == merge_output(roster_rows, leave_rows),
{
    lemma_leave_records_insert(leave_rows, i, row);
    let rr = roster_records(roster_rows);
    let lr = leave_records(leave_rows);
    let all = rr + lr;
    match leave_row_view(row@) {
        Some(v) => {
            let p = leave_records(leave_rows.subrange(0, i)).len() as int;
            assert(rr + lr.insert(p, v) =~= all.insert(rr.len() + p, v));
            lemma_leave_records_are_leave(leave_rows);
            assert(v.source == Source::Leave);
            assert(!ids_of(all, Source::Roster).contains(v.pesel)) by {
                if ids_of(all, Source::Roster).contains(v.pesel) {
                    let j = choose|j: int| #![trigger all[j]]
                        0 <= j < all.len() && all[j].source == Source::Roster && all[j].pesel == v.pesel;
                    if j >= rr.len() {
                        assert(all[j] == lr[j - rr.len()]);
                    } else {
                        assert(all[j] == rr[j]);
                        assert(ids_of(rr, Source::Roster).contains(v.pesel));
                    }
                }
            }
            lemma_unmatched_leave_record(all, rr.len() + p, v);
        },
        None => {},
    }
}

} // verus!
