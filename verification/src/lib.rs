//! A rule engine for JSON documents.
//!
//! Rules select values in a document by a path and check each selected value
//! against a condition. Rules belong to a journey and a system, may wait on a
//! dependency, and may form conditional trees: the outcome of a root decides
//! which of its two branches is evaluated. The engine answers with a verdict
//! and one error for each failed check.
//!
//! The functions of the library are verified against their contracts. The
//! contracts are stated over models: each data type has a view, and the
//! modules define, as specification functions, what a query of the
//! repository answers and what a validation reports. What `serde_json`,
//! `jsonpath_lib` and `regex` compute is taken on trust, behind the few
//! functions of `json` and `pattern` that call them. `laws` holds what
//! follows for the engine as a whole.

pub mod condition;
pub mod decimal;
pub mod error;
pub mod evaluation;
pub mod json;
pub mod laws;
pub mod models;
pub mod ordering;
pub mod parameters;
pub mod pattern;
pub mod responses;
pub mod rules;
pub mod text;
pub mod validation;
