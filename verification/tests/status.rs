use synapse_core::status::{status_code, STATUS_FAILED, STATUS_OK, STATUS_UNINITIALIZED};

#[test]
fn status_codes_of_the_javascript_interface() {
    assert_eq!(STATUS_OK, 0);
    assert_eq!(STATUS_FAILED, 1);
    assert_eq!(STATUS_UNINITIALIZED, 2);
    assert_eq!(status_code(true, true), 0);
    assert_eq!(status_code(true, false), 1);
    assert_eq!(status_code(false, false), 2);
    assert_eq!(status_code(false, true), 2);
}
