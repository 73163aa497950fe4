use atria::drm::device::listing_fits;
use atria::drm::device::{
    atomic_client_support, choose_connector, choose_crtc, device_path, open_failure,
    select_output, Connector, DeviceConfig, DrmCapabilities, Encoder, OutputSelection,
    ResourceSnapshot,
};
use atria::drm::error::DrmError;
use atria::drm::logic::{fourcc, DrmFormat, Mode, ModeSelection};
use atria::drm::present::{
    atomic_commit_error, copy_rows, crtc_mask, flip_request, frame_row_bytes,
    initial_atomic_properties, initial_atomic_request, initial_modeset_error, page_flip_error,
    parse_flip_events, plane_suits, property_name, required_property, sink_failure,
    test_commit_error, AtomicProperty, AtomicState, FlipState, InitialAtomicProperties, Property,
    SinkFailure, EVENT_FLIP_COMPLETE, FLIP_USER_DATA,
};
use atria::ioctl::{request, Platform, DIRECTION_NONE};

fn preferred(width: u16, height: u16) -> Mode {
    Mode {
        width,
        height,
        refresh_hz: 60,
        mode_type: 1 << 3,
    }
}

fn connector(id: u32, encoder_id: u32, encoder_ids: Vec<u32>, connected: bool) -> Connector {
    Connector {
        id,
        encoder_id,
        encoder_ids,
        modes: vec![preferred(1920, 1080)],
        connected,
    }
}

fn named(id: u32, value: u64, name: &str) -> Property {
    let mut bytes = [0_u8; 32];
    bytes[..name.len()].copy_from_slice(name.as_bytes());
    Property {
        id,
        value,
        name: bytes,
    }
}

#[test]
fn the_first_connected_or_the_requested_connector_is_chosen() {
    let connectors = [
        connector(30, 0, vec![], false),
        connector(31, 0, vec![], true),
        connector(32, 0, vec![], true),
    ];
    assert_eq!(choose_connector(&connectors, None).unwrap(), 1);
    assert_eq!(choose_connector(&connectors, Some(32)).unwrap(), 2);
    assert!(matches!(
        choose_connector(&connectors, Some(30)),
        Err(DrmError::RequestedConnectorUnavailable(30))
    ));
    assert!(matches!(
        choose_connector(&connectors[..1], None),
        Err(DrmError::NoConnectedConnector)
    ));
}

#[test]
fn the_attached_encoder_keeps_its_crtc() {
    let resources = ResourceSnapshot {
        connectors: vec![connector(40, 7, vec![7, 8], true)],
        encoders: vec![
            Encoder {
                id: 8,
                crtc_id: 101,
                possible_crtcs: 0b11,
            },
            Encoder {
                id: 7,
                crtc_id: 102,
                possible_crtcs: 0b11,
            },
        ],
        crtc_ids: vec![101, 102],
    };
    assert_eq!(choose_crtc(&resources, 0).unwrap(), 102);
}

#[test]
fn an_idle_encoder_takes_the_first_crtc_it_can_feed() {
    let resources = ResourceSnapshot {
        connectors: vec![connector(40, 0, vec![9], true)],
        encoders: vec![Encoder {
            id: 9,
            crtc_id: 0,
            possible_crtcs: 0b10,
        }],
        crtc_ids: vec![101, 102],
    };
    assert_eq!(choose_crtc(&resources, 0).unwrap(), 102);
}

#[test]
fn a_connector_without_a_usable_encoder_is_refused() {
    let lonely = ResourceSnapshot {
        connectors: vec![connector(41, 0, vec![], true)],
        encoders: vec![],
        crtc_ids: vec![101],
    };
    assert!(matches!(
        choose_crtc(&lonely, 0),
        Err(DrmError::ConnectorHasNoEncoder(41))
    ));
    let mismatched = ResourceSnapshot {
        connectors: vec![connector(42, 0, vec![5], true)],
        encoders: vec![Encoder {
            id: 5,
            crtc_id: 0,
            possible_crtcs: 0b100,
        }],
        crtc_ids: vec![101],
    };
    assert!(matches!(
        choose_crtc(&mismatched, 0),
        Err(DrmError::NoCompatibleCrtc { connector_id: 42 })
    ));
}

#[test]
fn an_output_is_selected_connector_mode_then_crtc() {
    let resources = ResourceSnapshot {
        connectors: vec![connector(40, 7, vec![7], true)],
        encoders: vec![Encoder {
            id: 7,
            crtc_id: 0,
            possible_crtcs: 1,
        }],
        crtc_ids: vec![77],
    };
    let selection = select_output(&resources, DeviceConfig::default()).unwrap();
    assert_eq!(
        selection,
        OutputSelection {
            connector_index: 0,
            mode_index: 0,
            crtc_id: 77
        }
    );
    let exact = DeviceConfig {
        mode: ModeSelection::Exact {
            width: 640,
            height: 480,
            refresh_hz: 60,
        },
        ..DeviceConfig::default()
    };
    assert!(matches!(
        select_output(&resources, exact),
        Err(DrmError::RequestedModeUnavailable)
    ));
}

#[test]
fn device_failures_are_classified() {
    assert!(matches!(
        open_failure(2, Some(libc::ENOENT)),
        DrmError::DeviceAbsent { card_index: 2 }
    ));
    assert!(matches!(
        open_failure(2, Some(libc::EPERM)),
        DrmError::OpenDevice { errno } if errno == libc::EPERM
    ));
    assert!(matches!(
        open_failure(2, None),
        DrmError::OpenDevice { errno } if errno == libc::EIO
    ));
    assert!(matches!(atomic_client_support(Ok(())), Ok(true)));
    assert!(matches!(atomic_client_support(Err(libc::EINVAL)), Ok(false)));
    assert!(matches!(
        atomic_client_support(Err(libc::EOPNOTSUPP)),
        Ok(false)
    ));
    assert!(matches!(
        atomic_client_support(Err(libc::EPERM)),
        Err(DrmError::EnableAtomicClient { errno }) if errno == libc::EPERM
    ));
    let (path, length) = device_path(12);
    assert_eq!(&path[..length], b"/dev/dri/card12");
    let capabilities = DrmCapabilities::new(true, false);
    assert!(capabilities.dumb_buffers());
    assert!(!capabilities.atomic_commit());
}

#[test]
fn display_failures_name_lost_access_and_contention() {
    assert!(matches!(
        initial_modeset_error(libc::EACCES),
        DrmError::DisplayAccessLost { .. }
    ));
    assert!(matches!(
        atomic_commit_error(libc::EBUSY),
        DrmError::DisplayBusy { .. }
    ));
    assert!(matches!(page_flip_error(libc::EINVAL), DrmError::PageFlip { .. }));
    assert!(matches!(
        test_commit_error(libc::EINVAL),
        DrmError::AtomicTestFailed { .. }
    ));
    assert!(matches!(
        initial_modeset_error(libc::ENOMEM),
        DrmError::InitialModeset { .. }
    ));
    assert_eq!(sink_failure(DrmError::FlipPending), SinkFailure::WouldBlock);
    assert_eq!(
        sink_failure(DrmError::PageFlip { errno: 5 }),
        SinkFailure::Os { errno: 5 }
    );
    assert_eq!(sink_failure(DrmError::NoModes), SinkFailure::InvalidInput);
}

#[test]
fn flip_events_are_read_in_either_byte_order() {
    let mut little = Vec::new();
    little.extend_from_slice(&7_u32.to_le_bytes());
    little.extend_from_slice(&12_u32.to_le_bytes());
    little.extend_from_slice(&[0; 4]);
    little.extend_from_slice(&EVENT_FLIP_COMPLETE.to_le_bytes());
    little.extend_from_slice(&16_u32.to_le_bytes());
    little.extend_from_slice(&FLIP_USER_DATA.to_le_bytes());
    assert!(matches!(parse_flip_events(&little, true), Ok(true)));

    let mut big = Vec::new();
    big.extend_from_slice(&EVENT_FLIP_COMPLETE.to_be_bytes());
    big.extend_from_slice(&16_u32.to_be_bytes());
    big.extend_from_slice(&1_u64.to_be_bytes());
    assert!(matches!(parse_flip_events(&big, false), Ok(false)));

    let mut short = Vec::new();
    short.extend_from_slice(&EVENT_FLIP_COMPLETE.to_le_bytes());
    short.extend_from_slice(&8_u32.to_le_bytes());
    assert!(matches!(
        parse_flip_events(&short, true),
        Err(DrmError::InvalidFlipEvent)
    ));
    assert!(matches!(parse_flip_events(&[], true), Ok(false)));
}

#[test]
fn properties_are_found_by_their_exact_name() {
    let properties = [
        named(1, 0, "CRTC_IDX"),
        named(2, 0, "CRTC_ID"),
        named(3, 0, "CRTC_ID"),
    ];
    assert!(property_name(&properties[1], b"CRTC_ID"));
    assert!(!property_name(&properties[0], b"CRTC_ID"));
    assert!(!property_name(&properties[1], &[b'x'; 32]));
    assert_eq!(
        required_property(&properties, 9, AtomicProperty::CrtcId).unwrap(),
        2
    );
    assert!(matches!(
        required_property(&properties, 9, AtomicProperty::ModeId),
        Err(DrmError::MissingAtomicProperty {
            object_id: 9,
            property_name: "MODE_ID"
        })
    ));
    assert_eq!(AtomicProperty::SrcW.name_bytes(), b"SRC_W".to_vec());
    assert_eq!(AtomicProperty::CrtcH.label(), "CRTC_H");
}

#[test]
fn the_initial_modeset_needs_every_property() {
    let connector = [named(1, 0, "CRTC_ID")];
    let crtc = [named(2, 0, "MODE_ID"), named(3, 0, "ACTIVE")];
    let plane_names = [
        "FB_ID", "CRTC_ID", "SRC_X", "SRC_Y", "SRC_W", "SRC_H", "CRTC_X", "CRTC_Y", "CRTC_W",
        "CRTC_H",
    ];
    let plane: Vec<Property> = plane_names
        .iter()
        .enumerate()
        .map(|(index, name)| named(10 + index as u32, 0, name))
        .collect();
    let found = initial_atomic_properties(&connector, 50, &crtc, 60, &plane, 70).unwrap();
    assert_eq!(found.connector_crtc_id, 1);
    assert_eq!(found.crtc_active, 3);
    assert_eq!(found.plane_fb_id, 10);
    assert_eq!(found.plane_crtc_h, 19);
    assert!(matches!(
        initial_atomic_properties(&connector, 50, &crtc[..1], 60, &plane, 70),
        Err(DrmError::MissingAtomicProperty {
            object_id: 60,
            property_name: "ACTIVE"
        })
    ));
    assert!(matches!(
        initial_atomic_properties(&connector, 50, &crtc, 60, &plane[..9], 70),
        Err(DrmError::MissingAtomicProperty {
            object_id: 70,
            property_name: "CRTC_H"
        })
    ));
}

#[test]
fn a_primary_plane_must_feed_the_crtc_scan_the_format_and_say_so() {
    assert_eq!(crtc_mask(&[5, 6, 7], 7).unwrap(), 0b100);
    assert!(matches!(crtc_mask(&[5, 6], 7), Err(DrmError::NoPrimaryPlane)));
    let crtcs: Vec<u32> = (0..40).collect();
    assert!(matches!(crtc_mask(&crtcs, 33), Err(DrmError::NoPrimaryPlane)));
    let primary = [named(4, 1, "type")];
    let overlay = [named(4, 0, "type")];
    let xrgb = DrmFormat::Xrgb8888.fourcc();
    assert!(plane_suits(0b11, 0b10, &[xrgb], DrmFormat::Xrgb8888, &primary));
    assert!(!plane_suits(0b01, 0b10, &[xrgb], DrmFormat::Xrgb8888, &primary));
    assert!(!plane_suits(0b11, 0b10, &[xrgb], DrmFormat::Rgb565, &primary));
    assert!(!plane_suits(0b11, 0b10, &[xrgb], DrmFormat::Xrgb8888, &overlay));
}

#[test]
fn commits_carry_the_mode_in_fixed_point() {
    let properties = InitialAtomicProperties {
        connector_crtc_id: 1,
        crtc_mode_id: 2,
        crtc_active: 3,
        plane_fb_id: 4,
        plane_crtc_id: 5,
        plane_src_x: 6,
        plane_src_y: 7,
        plane_src_w: 8,
        plane_src_h: 9,
        plane_crtc_x: 10,
        plane_crtc_y: 11,
        plane_crtc_w: 12,
        plane_crtc_h: 13,
    };
    let request = initial_atomic_request(20, 21, 22, properties, 30, 40, preferred(1920, 1080));
    assert_eq!(request.objects, vec![20, 21, 22]);
    assert_eq!(request.counts, vec![1, 2, 10]);
    assert_eq!(request.properties, (1..=13).collect::<Vec<u32>>());
    assert_eq!(
        request.values,
        vec![21, 30, 1, 40, 21, 0, 0, 1920 << 16, 1080 << 16, 0, 0, 1920, 1080]
    );
    let flip = flip_request(
        AtomicState {
            plane_id: 22,
            plane_fb_id: 4,
            mode_blob_id: 30,
        },
        41,
    );
    assert_eq!(flip.objects, vec![22]);
    assert_eq!(flip.properties, vec![4]);
    assert_eq!(flip.values, vec![41]);
}

#[test]
fn flips_alternate_and_one_is_pending_at_a_time() {
    let mut state = FlipState::new();
    assert!(matches!(
        state.finish_flip(Ok(true)),
        Err(DrmError::FlipEventMissing)
    ));
    let target = state.flip_target().unwrap();
    assert_eq!(target, 1);
    state.flip_queued(target);
    assert!(matches!(state.flip_target(), Err(DrmError::FlipPending)));
    assert!(matches!(
        state.finish_flip(Ok(false)),
        Err(DrmError::FlipEventMissing)
    ));
    assert!(matches!(
        state.finish_flip(Err(DrmError::InvalidFlipEvent)),
        Err(DrmError::InvalidFlipEvent)
    ));
    assert_eq!(state.pending_target(), Some(1));
    assert!(state.finish_flip(Ok(true)).is_ok());
    assert_eq!(state.pending_target(), None);
    assert_eq!(state.flip_target().unwrap(), 0);
}

#[test]
fn rows_are_copied_until_one_does_not_fit() {
    let source: Vec<u8> = (0..12).collect();
    let mut destination = [0xff_u8; 10];
    assert!(copy_rows(&mut destination, &source, 2, 3, 6, 5).is_ok());
    assert_eq!(destination, [0, 1, 2, 0xff, 0xff, 6, 7, 8, 0xff, 0xff]);

    let mut small = [0xff_u8; 7];
    assert!(matches!(
        copy_rows(&mut small, &source, 2, 3, 6, 5),
        Err(DrmError::FrameBufferTooSmall)
    ));
    assert_eq!(small, [0, 1, 2, 0xff, 0xff, 0xff, 0xff]);

    let mut any = [0_u8; 4];
    assert!(matches!(
        copy_rows(&mut any, &source, 3, 1, usize::MAX, 1),
        Err(DrmError::ArithmeticOverflow)
    ));
}

#[test]
fn a_frame_must_match_the_mode_and_the_layout() {
    let mode = preferred(640, 480);
    assert_eq!(frame_row_bytes(640, 480, mode, 4, 4).unwrap(), 2560);
    assert!(matches!(
        frame_row_bytes(640, 481, mode, 4, 4),
        Err(DrmError::FrameSizeMismatch {
            frame_height: 481,
            ..
        })
    ));
    assert!(matches!(
        frame_row_bytes(640, 480, mode, 4, 2),
        Err(DrmError::FrameLayoutMismatch {
            expected: 4,
            actual: 2
        })
    ));
}

#[test]
fn codes_pack_their_characters_lowest_first() {
    assert_eq!(fourcc(b'X', b'R', b'2', b'4'), u32::from_le_bytes(*b"XR24"));
    assert_eq!(request(Platform::Linux, DIRECTION_NONE, b'd', 0x1e, 0), 0x641e);
    assert_eq!(request(Platform::FreeBsd, DIRECTION_NONE, b'd', 0x1e, 0), 0x2000_641e);
    assert_eq!(request(Platform::FreeBsd, 2, b'E', 0x18, 0x2060), 0x4060_4518);
}

#[test]
fn a_listing_that_grew_does_not_fit() {
    assert!(listing_fits(&[2, 3], &[2, 4]));
    assert!(!listing_fits(&[2, 5], &[2, 4]));
    assert!(listing_fits(&[], &[]));
}
