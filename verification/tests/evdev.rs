use std::time::Duration;

use atria::input::device::{bitmap_has_supported_key, timeout_milliseconds};
use atria::input::evdev::KEY_STATE_BYTES;

fn span(timeout: Duration) -> Option<(u64, u32)> {
    Some((timeout.as_secs(), timeout.subsec_nanos()))
}

#[test]
fn supported_key_bitmap_selects_keyboard_remote_class() {
    let mut bitmap = [0_u8; KEY_STATE_BYTES];
    bitmap[103 / 8] |= 1 << (103 % 8);
    assert!(bitmap_has_supported_key(&bitmap));
}

#[test]
fn pointer_button_bitmap_is_not_treated_as_a_key_device() {
    let mut bitmap = [0_u8; KEY_STATE_BYTES];
    let button_left = 0x110;
    bitmap[button_left / 8] |= 1 << (button_left % 8);
    assert!(!bitmap_has_supported_key(&bitmap));
}

#[test]
fn mod_submillisecond_timeout_rounds_up_to_avoid_an_early_wakeup() {
    assert_eq!(timeout_milliseconds(span(Duration::from_nanos(1))), Ok(1));
}
