//! A template-driven parser for semi-structured, line-oriented text.
//!
//! A template declares named values with capture patterns and a finite
//! state machine whose rules match input lines, extract values and emit
//! records.  The compiled template is immutable and shareable; each
//! parse carries its own mutable current record, filldown record and
//! output.

pub mod cli_table;
pub mod compile;
pub mod error;
pub mod export;
pub mod laws;
pub mod machine;
pub mod record;
pub mod rx;
pub mod template;
pub mod text;
pub mod varsubst;

pub use cli_table::{CliTable, CliTableRegexRule, CliTableRow, ParsedCliTable};
pub use compile::{MultiRegex, StateCompiled, StateRuleCompiled, TextFSMParser};
pub use error::TextFsmError;
pub use export::OutputFormat;
pub use machine::{DataRecordConversion, TextFSM};
pub use record::{DataRecord, Value};
pub use template::{
    LineAction, NextState, RecordAction, RuleTransition, StateRule, ValueDefinition,
};
