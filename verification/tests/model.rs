use atria::model::{
    pixel_format_is_known, BufferDescriptor, BufferTransport, ErrorCategory, ErrorCode,
    InteractionKind, Point,
    Rect, SeatCapabilities, SharedMemory, Size, TitleText, FORMAT_ARGB8888, FORMAT_RGB565,
    FORMAT_XRGB8888,
};

#[test]
fn a_rectangle_contains_its_origin_but_not_its_far_edges() {
    let rect = Rect {
        x: -10,
        y: 5,
        width: 20,
        height: 10,
    };
    assert!(rect.contains(Point { x: -10, y: 5 }));
    assert!(rect.contains(Point { x: 9, y: 14 }));
    assert!(!rect.contains(Point { x: 10, y: 5 }));
    assert!(!rect.contains(Point { x: 0, y: 15 }));
    let empty = Rect {
        x: 0,
        y: 0,
        width: 0,
        height: 0,
    };
    assert!(!empty.contains(Point { x: 0, y: 0 }));
}

#[test]
fn seat_capabilities_accumulate() {
    let none = SeatCapabilities::empty();
    assert!(!none.has_pointer() && !none.has_keyboard() && !none.has_touch());
    let some = none.with_pointer().with_touch();
    assert!(some.has_pointer());
    assert!(!some.has_keyboard());
    assert!(some.has_touch());
    assert!(some.with_keyboard().has_keyboard());
}

#[test]
fn error_codes_keep_their_wire_values() {
    assert_eq!(ErrorCode::InvalidObject.value(), 0x0001);
    assert_eq!(ErrorCode::InvalidState.value(), 0x0100);
    assert_eq!(ErrorCode::EventQueueOverflow.value(), 0x0201);
    assert_eq!(InteractionKind::PointerPress.into_raw(), 0);
}

#[test]
fn only_named_pixel_formats_are_known() {
    assert!(pixel_format_is_known(FORMAT_XRGB8888));
    assert!(pixel_format_is_known(FORMAT_ARGB8888));
    assert!(pixel_format_is_known(FORMAT_RGB565));
    assert!(!pixel_format_is_known(3));
}

#[test]
fn shared_memory_keeps_its_name_and_size() {
    let memory = SharedMemory::new(7, 4096);
    assert_eq!(memory.id(), 7);
    assert_eq!(memory.size(), 4096);
}

#[test]
fn a_title_reads_back_as_set() {
    let title = TitleText::default();
    assert_eq!(title.as_str(), "");
}

#[test]
fn buffer_descriptors_are_checked_for_shape() {
    let valid = BufferDescriptor {
        transport: BufferTransport::SoftwareShm,
        size: Size {
            width: 4,
            height: 4,
        },
        stride: 16,
        byte_len: 64,
    };
    assert!(valid.is_structurally_valid());
    let short = BufferDescriptor {
        byte_len: 63,
        ..valid
    };
    assert!(!short.is_structurally_valid());
    let flat = BufferDescriptor {
        size: Size {
            width: 4,
            height: 0,
        },
        ..valid
    };
    assert!(!flat.is_structurally_valid());
    let huge = BufferDescriptor {
        size: Size {
            width: 1,
            height: u32::MAX,
        },
        stride: u32::MAX,
        byte_len: u64::MAX,
    ..valid
    };
    assert!(huge.is_structurally_valid());
}

#[test]
fn error_codes_fall_in_their_category_ranges() {
    assert_eq!(ErrorCode::UnknownOpcode.category(), ErrorCategory::Protocol);
    assert_eq!(ErrorCode::ConnectionClosed.category(), ErrorCategory::Protocol);
    assert_eq!(ErrorCode::InvalidState.category(), ErrorCategory::Object);
    assert_eq!(ErrorCode::UnsupportedCapability.category(), ErrorCategory::Object);
    assert_eq!(ErrorCode::QuotaExceeded.category(), ErrorCategory::Resource);
}

#[test]
fn seat_capability_builders_settle() {
    let caps = SeatCapabilities::empty().with_pointer();
    assert!(caps.has_pointer() && !caps.has_keyboard() && !caps.has_touch());
    assert_eq!(caps.with_pointer(), caps);
    assert_eq!(
        caps.with_keyboard().with_touch(),
        SeatCapabilities::empty().with_touch().with_keyboard().with_pointer()
    );
    assert_eq!(SeatCapabilities::empty(), SeatCapabilities::default());
}

#[test]
fn titles_are_bounded() {
    let at_limit = "x".repeat(atria::model::MAX_TITLE_BYTES);
    assert_eq!(TitleText::new(&at_limit).unwrap().as_str(), at_limit);
    let over = "x".repeat(atria::model::MAX_TITLE_BYTES + 1);
    assert!(TitleText::new(&over).is_none());
    assert_eq!(TitleText::new("terminal").unwrap().as_str(), "terminal");
}

#[test]
fn defaults_are_the_empty_values() {
    assert_eq!(SeatCapabilities::default(), SeatCapabilities::empty());
    assert_eq!(TitleText::default().as_str(), "");
    assert_eq!(Point::default(), Point { x: 0, y: 0 });
}
