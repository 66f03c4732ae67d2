//! A linter for URL route tables: it reads a plain-text table of routes and
//! reports shadowed and duplicate routes, malformed paths and unparsable
//! lines.
use vstd::prelude::*;

pub mod cli;
pub mod json;
pub mod lint;
pub mod parser;
pub mod report;
pub mod text;

pub use cli::{parse_args, ArgError, Command, Options};
pub use lint::{check_routes, Finding, Severity};
pub use parser::{parse, Route};
pub use report::{
    count_errors, filter_findings, has_errors, is_known_rule, json_string, known_rules,
    lint_table, render_human, render_json,
};

verus! {

} // verus!
