use dqr::error::DqrError;
use dqr::responses::{changed, failed, succeeded};

#[test]
fn a_request_that_succeeded_has_data_and_no_error() {
    let out = succeeded(vec![1, 2]);
    assert!(out.success);
    assert_eq!(out.data, Some(vec![1, 2]));
    assert_eq!(out.error, None);
}

#[test]
fn a_request_that_failed_has_the_reason_and_no_data() {
    let out = failed::<String>("Internal server error".to_string());
    assert!(!out.success);
    assert_eq!(out.data, None);
    assert_eq!(out.error, Some("Internal server error".to_string()));
}

#[test]
fn a_change_that_was_saved_reports_success() {
    let out = changed(Ok("R1".to_string()), Ok(()), "Failed to create rule: ");
    assert!(out.success);
    assert_eq!(out.data, Some("R1".to_string()));
    assert_eq!(out.error, None);
}

#[test]
fn a_change_that_was_not_saved_still_reports_success_with_a_warning() {
    let out = changed(
        Ok("R1".to_string()),
        Err(DqrError::IoError("disk full".to_string())),
        "Failed to create rule: ",
    );
    assert!(out.success);
    assert_eq!(out.data, Some("R1".to_string()));
    assert_eq!(out.error, Some("Rule change was not saved: IO error: disk full".to_string()));
}

#[test]
fn a_change_that_failed_reports_the_reason() {
    let out = changed::<()>(
        Err(DqrError::RuleNotFound("R9".to_string())),
        Ok(()),
        "Failed to delete rule: ",
    );
    assert!(!out.success);
    assert_eq!(out.data, None);
    assert_eq!(
        out.error,
        Some("Failed to delete rule: Validation rule not found: R9".to_string())
    );
    let out = changed::<()>(
        Err(DqrError::RuleNotFound("R9".to_string())),
        Err(DqrError::IoError("ignored".to_string())),
        "Failed to delete rule: ",
    );
    assert_eq!(
        out.error,
        Some("Failed to delete rule: Validation rule not found: R9".to_string())
    );
}
