//! An in-memory log-record store with per-severity bounded retention,
//! category tagging, and multi-criterion filtering (severity threshold,
//! category visibility, substring or regex search).
//!
//! The store accepts log entries, enforces a fixed retention bound per
//! severity level, maintains running category statistics, and evaluates a
//! composable filter predicate against every record on every query. The
//! rendering layer around it only pushes entries, reads the filtered view,
//! and mutates display-preference fields.

pub mod categories;
pub mod ledger;
pub mod logger;
pub mod record;
pub mod search;
pub mod text;
pub mod time;
pub mod types;

pub use categories::IntoCategories;
pub use logger::EguiLogger;
pub use record::LogRecord;
pub use types::{LogLevel, TimeFormat, TimePrecision};
