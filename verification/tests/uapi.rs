use atria::ioctl::Platform;
use atria::drm::uapi::{
    drop_master_request, get_cap_request, mode_add_framebuffer2_request, mode_atomic_request,
    mode_create_dumb_request, mode_create_property_blob_request, mode_destroy_dumb_request,
    mode_get_resources_request, mode_map_dumb_request, mode_page_flip_request,
    mode_set_crtc_request, set_client_cap_request, set_master_request,
};
use atria::input::evdev::{
    get_event_types_request, get_key_codes_request, get_key_state_request, set_clock_id_request,
};

#[test]
fn ioctl_numbers_match_the_linux_uapi_macros() {
    assert_eq!(get_event_types_request(Platform::Linux), 0x8004_4520);
    assert_eq!(get_key_codes_request(Platform::Linux), 0x8060_4521);
    assert_eq!(get_key_state_request(Platform::Linux), 0x8060_4518);
    assert_eq!(set_clock_id_request(Platform::Linux), 0x4004_45a0);
}

#[test]
fn uapi_ioctl_numbers_match_the_linux_uapi_macros() {
    assert_eq!(get_cap_request(Platform::Linux), 0xc010_640c);
    assert_eq!(set_client_cap_request(Platform::Linux), 0x4010_640d);
    assert_eq!(mode_get_resources_request(Platform::Linux), 0xc040_64a0);
    assert_eq!(mode_set_crtc_request(Platform::Linux), 0xc068_64a2);
    assert_eq!(mode_page_flip_request(Platform::Linux), 0xc018_64b0);
    assert_eq!(mode_create_dumb_request(Platform::Linux), 0xc020_64b2);
    assert_eq!(mode_map_dumb_request(Platform::Linux), 0xc010_64b3);
    assert_eq!(mode_destroy_dumb_request(Platform::Linux), 0xc004_64b4);
    assert_eq!(mode_add_framebuffer2_request(Platform::Linux), 0xc068_64b8);
    assert_eq!(mode_atomic_request(Platform::Linux), 0xc038_64bc);
    assert_eq!(mode_create_property_blob_request(Platform::Linux), 0xc010_64bd);
}

#[test]
fn ioctl_numbers_match_the_freebsd_uapi_macros() {
    assert_eq!(get_event_types_request(Platform::FreeBsd), 0x4004_4520);
    assert_eq!(get_key_codes_request(Platform::FreeBsd), 0x4060_4521);
    assert_eq!(get_key_state_request(Platform::FreeBsd), 0x4060_4518);
    assert_eq!(set_clock_id_request(Platform::FreeBsd), 0x8004_45a0);
}

#[test]
fn drm_ioctl_numbers_on_freebsd() {
    assert_eq!(get_cap_request(Platform::FreeBsd), 0xc010_640c);
    assert_eq!(set_client_cap_request(Platform::FreeBsd), 0x8010_640d);
    assert_eq!(set_master_request(Platform::FreeBsd), 0x2000_641e);
    assert_eq!(drop_master_request(Platform::FreeBsd), 0x2000_641f);
    assert_eq!(set_master_request(Platform::Linux), 0x0000_641e);
    assert_eq!(mode_atomic_request(Platform::FreeBsd), 0xc038_64bc);
}
