use vss_store::api::{status_code, APIResult};
use vss_store::store::StoreError;

#[test]
fn envelope_ok_sets_status_only() {
    let r = APIResult::ok(true);
    assert!(r.result);
    assert_eq!(r.status, Some("ok".to_string()));
    assert_eq!(r.error, None);
}

#[test]
fn envelope_failed_sets_error_only() {
    let r = APIResult::failed(false, "boom".to_string());
    assert!(!r.result);
    assert_eq!(r.status, None);
    assert_eq!(r.error, Some("boom".to_string()));
}

#[test]
fn status_codes_per_outcome() {
    assert_eq!(status_code(None), 200);
    assert_eq!(status_code(Some(StoreError::AlreadyExists)), 409);
    assert_eq!(status_code(Some(StoreError::NotFound)), 404);
    assert_eq!(status_code(Some(StoreError::DimensionMismatch(Some(3)))), 500);
    assert_eq!(status_code(Some(StoreError::DimensionMismatch(None))), 500);
    assert_eq!(status_code(Some(StoreError::InvalidDimension)), 400);
}
