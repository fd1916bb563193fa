//! Reconciles an employee roster with a leave-record export, keyed by the
//! national identification number, and lays out the matching leave records
//! as an output table.
pub mod date;
pub mod merger;
pub mod reconcile;
pub mod record;
pub mod table;

pub use merger::{ExcelMerger, MergeOutcome, WorkbookKind};
pub use record::{Cell, EmployeeData, Source};
