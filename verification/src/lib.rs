//! JAMA: plain-text double-entry accounting — the data model, the ledger
//! text format, CSV import rules, exports and reports, with their contracts.

pub mod date;
pub mod decimal;
pub mod text;
pub mod totals;
pub mod model;
pub mod error;
pub mod parser;
pub mod reports;
pub mod export;
pub mod csv_import;
pub mod ledger;
pub mod color;
pub mod render;
pub mod cli;
pub mod round_trip;
pub mod laws;
pub mod testkit;
pub mod rows;
pub mod line_shift;
