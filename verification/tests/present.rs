use atria::drm::error::DrmError;
use atria::drm::present::{contains_flip_event, EVENT_FLIP_COMPLETE, FLIP_USER_DATA};

#[test]
fn parses_the_matching_flip_event() {
    let mut event = Vec::new();
    event.extend_from_slice(&EVENT_FLIP_COMPLETE.to_ne_bytes());
    event.extend_from_slice(&32_u32.to_ne_bytes());
    event.extend_from_slice(&FLIP_USER_DATA.to_ne_bytes());
    event.resize(32, 0);
    assert!(contains_flip_event(&event).unwrap());
}

#[test]
fn rejects_a_truncated_event() {
    let mut event = Vec::new();
    event.extend_from_slice(&EVENT_FLIP_COMPLETE.to_ne_bytes());
    event.extend_from_slice(&32_u32.to_ne_bytes());
    assert!(matches!(
        contains_flip_event(&event),
        Err(DrmError::InvalidFlipEvent)
    ));
}
