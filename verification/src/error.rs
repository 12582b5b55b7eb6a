//! The errors that the engine reports.

use vstd::prelude::*;
use vstd::string::StringExecFns;

verus! {

/// What went wrong, with the text that names the culprit.
#[derive(Debug)]
pub enum DqrError {
    /// A text was not valid JSON.
    JsonError(String),
    /// A record of the rule source was malformed.
    CsvError(String),
    /// The rule source could not be read or written.
    IoError(String),
    /// No rule has the given identifier.
    RuleNotFound(String),
    /// A rule, or the repository's configuration, cannot be used as it is.
    InvalidRuleConfig(String),
    /// A selector is not a path that the engine evaluates.
    JsonPathError(String),
    /// A validation could not be carried out.
    ValidationError(String),
}

/// The model of an error: the same variants over texts.
pub enum ErrorView {
    JsonError(Seq<char>),
    CsvError(Seq<char>),
    IoError(Seq<char>),
    RuleNotFound(Seq<char>),
    InvalidRuleConfig(Seq<char>),
    JsonPathError(Seq<char>),
    ValidationError(Seq<char>),
}

impl View for DqrError {
    type V = ErrorView;

    open spec fn view(&self) -> ErrorView {
        match self {
            DqrError::JsonError(s) => ErrorView::JsonError(s@),
            DqrError::CsvError(s) => ErrorView::CsvError(s@),
            DqrError::IoError(s) => ErrorView::IoError(s@),
            DqrError::RuleNotFound(s) => ErrorView::RuleNotFound(s@),
            DqrError::InvalidRuleConfig(s) => ErrorView::InvalidRuleConfig(s@),
            DqrError::JsonPathError(s) => ErrorView::JsonPathError(s@),
            DqrError::ValidationError(s) => ErrorView::ValidationError(s@),
        }
    }
}

impl ErrorView {
    /// The sentence that describes the error.
    pub open spec fn message(self) -> Seq<char> {
        match self {
            ErrorView::JsonError(s) => "JSON parsing error: "@ + s,
            ErrorView::CsvError(s) => "CSV parsing error: "@ + s,
            ErrorView::IoError(s) => "IO error: "@ + s,
            ErrorView::RuleNotFound(s) => "Validation rule not found: "@ + s,
            ErrorView::InvalidRuleConfig(s) => "Invalid rule configuration: "@ + s,
            ErrorView::JsonPathError(s) => "JSON path error: "@ + s,
            ErrorView::ValidationError(s) => "Validation error: "@ + s,
        }
    }
}

impl DqrError {
    /// The sentence that describes the error.
    pub fn message(&self) -> (out: String)
        ensures
            out@ == self@.message(),
    {
        match self {
            DqrError::JsonError(s) => String::from_str("JSON parsing error: ").concat(s.as_str()),
            DqrError::CsvError(s) => String::from_str("CSV parsing error: ").concat(s.as_str()),
            DqrError::IoError(s) => String::from_str("IO error: ").concat(s.as_str()),
            DqrError::RuleNotFound(s) => String::from_str("Validation rule not found: ").concat(
                s.as_str(),
            ),
            DqrError::InvalidRuleConfig(s) => String::from_str(
                "Invalid rule configuration: ",
            ).concat(s.as_str()),
            DqrError::JsonPathError(s) => String::from_str("JSON path error: ").concat(s.as_str()),
            DqrError::ValidationError(s) => String::from_str("Validation error: ").concat(
                s.as_str(),
            ),
        }
    }
}

} // verus!
