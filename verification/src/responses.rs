//! The answers of the management interface.
//!
//! A change of the rules is applied in memory first and saved afterwards.
//! A save that fails does not undo the change: the answer still reports
//! success, and carries the failure of the save as a warning.

use crate::error::DqrError;
use crate::models::{optional_text, ApiResponse};
use vstd::prelude::*;
use vstd::string::StringExecFns;

verus! {

/// The warning for a change that was applied but not saved.
pub open spec fn save_warning(error: crate::error::ErrorView) -> Seq<char> {
    "Rule change was not saved: "@ + error.message()
}

/// The answer to a request that succeeded.
pub fn succeeded<T>(data: T) -> (out: ApiResponse<T>)
    ensures
        out.success,
        out.data == Some(data),
        out.error is None,
{
    ApiResponse { success: true, data: Some(data), error: None }
}

/// The answer to a request that failed, with the reason.
pub fn failed<T>(reason: String) -> (out: ApiResponse<T>)
    ensures
        !out.success,
        out.data is None,
        out.error == Some(reason),
{
    ApiResponse { success: false, data: None, error: Some(reason) }
}

/// The answer to a request that changes the rules. `outcome` is what the
/// engine returned for the change, `saved` what came of saving the rules
/// afterwards; where the change failed, nothing was saved and `saved` is not
/// looked at. `failure` introduces the reason of a failed change.
pub fn changed<T>(
    outcome: Result<T, DqrError>,
    saved: Result<(), DqrError>,
    failure: &str,
) -> (out: ApiResponse<T>)
    ensures
        match outcome {
            Ok(data) => out.success && out.data == Some(data) && optional_text(out.error)
                == match saved {
                Ok(_) => None,
                Err(e) => Some(save_warning(e@)),
            },
            Err(e) => !out.success && out.data is None && optional_text(out.error) == Some(
                failure@ + e@.message(),
            ),
        },
{
    match outcome {
        Ok(data) => {
            let warning = match saved {
                Ok(_) => None,
                Err(e) => Some(
                    String::from_str("Rule change was not saved: ").concat(e.message().as_str()),
                ),
            };
            ApiResponse { success: true, data: Some(data), error: warning }
        },
        Err(e) => {
            let reason = String::from_str(failure).concat(e.message().as_str());
            ApiResponse { success: false, data: None, error: Some(reason) }
        },
    }
}

} // verus!
