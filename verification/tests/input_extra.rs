use atria::input::device::{
    class_for, device_path, open_failure, read_record_count, reports_key, set_key_codes,
    timeout_milliseconds, DeviceClass, EventTypeSet,
};
use atria::input::epoch::{EpochChange, InputBatch, InputPipeline, PipelineStatus};
use atria::input::error::InputError;
use atria::input::key::{timestamp_ns, KeyCode, KeyNormalizer};
use atria::input::readiness::{classify_descriptor, readable_indices};
use atria::input::report::{RawInputEvent, ReportAccumulator, ReportStatus};
use atria::input::set::{device_outcome, DeviceOutcome};

fn key(code: u16, value: i32) -> RawInputEvent {
    RawInputEvent::new(1, 0, 1, code, value)
}

fn sync() -> RawInputEvent {
    RawInputEvent::new(1, 0, 0, 0, 0)
}

#[test]
fn timestamps_are_checked_and_converted() {
    assert_eq!(timestamp_ns(4, 250_000), Ok(4_250_000_000));
    assert_eq!(timestamp_ns(0, 999_999), Ok(999_999_000));
    assert_eq!(
        timestamp_ns(-1, 0),
        Err(InputError::InvalidTimestamp {
            seconds: -1,
            microseconds: 0
        })
    );
    assert_eq!(
        timestamp_ns(3, 1_000_000),
        Err(InputError::InvalidTimestamp {
            seconds: 3,
            microseconds: 1_000_000
        })
    );
    assert_eq!(timestamp_ns(i64::MAX, 0), Err(InputError::TimestampOverflow));
    assert_eq!(
        timestamp_ns(18_446_744_073, 709_551),
        Ok(18_446_744_073_709_551_000)
    );
    assert_eq!(
        timestamp_ns(18_446_744_073, 709_552),
        Err(InputError::TimestampOverflow)
    );
}

#[test]
fn the_vocabulary_maps_both_ways() {
    assert_eq!(KeyCode::from_evdev(1), Some(KeyCode::Escape));
    assert_eq!(KeyCode::from_evdev(0x160), Some(KeyCode::OkButton));
    assert_eq!(KeyCode::from_evdev(0x20b), Some(KeyCode::NumericPound));
    assert_eq!(KeyCode::from_evdev(0x110), None);
    assert!(KeyCode::is_supported_evdev(103));
    assert!(!KeyCode::is_supported_evdev(0));
    assert_eq!(KeyCode::Escape.index(), 0);
    assert_eq!(KeyCode::NumericPound.index(), 47);
}

#[test]
fn other_event_classes_and_unknown_keys_pass_untouched() {
    let mut accumulator = ReportAccumulator::new();
    accumulator.push(RawInputEvent::new(1, 0, 2, 0, 5)).unwrap();
    accumulator.push(key(0x110, 1)).unwrap();
    accumulator.push(key(28, 1)).unwrap();
    let report = match accumulator.push(sync()) {
        Ok(ReportStatus::Complete(report)) => report,
        other => panic!("expected a report, got {other:?}"),
    };
    let mut normalizer = KeyNormalizer::new();
    let events = normalizer
        .normalize(&report, InputPipeline::new().epoch())
        .unwrap();
    assert_eq!(events.len(), 1);
    assert_eq!(events[0].code, KeyCode::Enter);
    assert!(normalizer.is_down(KeyCode::Enter));
}

#[test]
fn reacquiring_is_only_for_a_discontinuity() {
    let mut pipeline = InputPipeline::new();
    assert_eq!(
        pipeline.reacquire(&[0_u8; 96]),
        Err(InputError::ReacquisitionNotRequired)
    );
    pipeline.push(RawInputEvent::new(0, 0, 0, 3, 0)).unwrap();
    assert_eq!(
        pipeline.push(sync()),
        Ok(PipelineStatus::ReacquireKeyState)
    );
    assert_eq!(pipeline.push(key(103, 1)), Err(InputError::ReacquisitionRequired));
    let before = pipeline.epoch().value();
    let batch = pipeline.reacquire(&[0_u8; 96]).unwrap();
    assert_eq!(batch.epoch().value(), before + 1);
    assert!(batch.events().is_empty());
    assert!(matches!(pipeline.push(key(103, 1)), Ok(PipelineStatus::Pending)));
}

#[test]
fn a_key_held_at_start_is_suppressed_until_released() {
    let mut pipeline = InputPipeline::new();
    let mut bitmap = [0_u8; 96];
    bitmap[28 / 8] |= 1 << (28 % 8);
    pipeline.initialize_key_state(&bitmap);
    pipeline.push(key(28, 0)).unwrap();
    let released = match pipeline.push(sync()) {
        Ok(PipelineStatus::Batch(batch)) => batch,
        other => panic!("expected a batch, got {other:?}"),
    };
    assert!(released.events().is_empty());
    pipeline.push(key(28, 1)).unwrap();
    let pressed = match pipeline.push(sync()) {
        Ok(PipelineStatus::Batch(batch)) => batch,
        other => panic!("expected a batch, got {other:?}"),
    };
    assert_eq!(pressed.events().len(), 1);
    assert!(matches!(pressed, InputBatch::Keys { .. }));
}

#[test]
fn an_advance_discards_the_report_under_assembly() {
    let mut pipeline = InputPipeline::new();
    pipeline.push(key(103, 1)).unwrap();
    pipeline.advance(EpochChange::Seat).unwrap();
    let batch = match pipeline.push(sync()) {
        Ok(PipelineStatus::Batch(batch)) => batch,
        other => panic!("expected a batch, got {other:?}"),
    };
    assert!(batch.events().is_empty());
}

#[test]
fn event_classes_are_read_from_their_bits() {
    let keys_only = EventTypeSet::from_bits(1 << 1);
    assert!(keys_only.has_keys());
    assert!(!keys_only.has_relative_motion());
    let pointer = EventTypeSet::from_bits((1 << 2) | (1 << 3) | (1 << 5));
    assert!(!pointer.has_keys());
    assert!(pointer.has_relative_motion());
    assert!(pointer.has_absolute_motion());
    assert!(pointer.has_switches());
    assert!(pointer.contains(3));
}

#[test]
fn a_device_is_a_key_device_only_when_it_reports_a_vocabulary_key() {
    let mut power_button = [0_u8; 96];
    power_button[116 / 8] |= 1 << (116 % 8);
    let keys = EventTypeSet::from_bits(1 << 1);
    assert_eq!(class_for(keys, &power_button), DeviceClass::KeyboardRemote);
    assert!(reports_key(&power_button, KeyCode::Power));
    assert!(!reports_key(&power_button, KeyCode::Up));
    let nothing = [0_u8; 96];
    assert_eq!(
        class_for(keys, &nothing),
        DeviceClass::Unhandled { event_types: keys }
    );
    let no_keys = EventTypeSet::from_bits(1 << 2);
    assert_eq!(
        class_for(no_keys, &power_button),
        DeviceClass::Unhandled {
            event_types: no_keys
        }
    );
    assert_eq!(set_key_codes(&power_button), vec![116]);
}

#[test]
fn device_paths_are_decimal() {
    let (path, length) = device_path(0);
    assert_eq!(&path[..length], b"/dev/input/event0");
    let (path, length) = device_path(u32::MAX);
    assert_eq!(&path[..length], b"/dev/input/event4294967295");
    assert!(path[length..].iter().all(|byte| *byte == 0));
}

#[test]
fn waits_are_rounded_up_and_bounded() {
    assert_eq!(timeout_milliseconds(None), Ok(-1));
    assert_eq!(timeout_milliseconds(Some((2, 500_000_000))), Ok(2500));
    assert_eq!(timeout_milliseconds(Some((0, 1_000_001))), Ok(2));
    assert_eq!(timeout_milliseconds(Some((2_147_483, 647_000_000))), Ok(i32::MAX));
    assert_eq!(
        timeout_milliseconds(Some((2_147_483, 647_000_001))),
        Err(InputError::PollTimeoutTooLong {
            seconds: 2_147_483,
            subsec_nanos: 647_000_001
        })
    );
}

#[test]
fn readiness_is_read_from_poll_flags() {
    let error = classify_descriptor(0x8);
    assert!(!error.is_readable());
    assert!(error.has_failed());
    let invalid = classify_descriptor(0x20);
    assert!(invalid.has_failed());
    let quiet = classify_descriptor(0x4);
    assert!(!quiet.is_readable() && !quiet.has_failed());
    assert_eq!(readable_indices(&[0x1, 0x10, 0x11, 0]), vec![0, 2]);
}

#[test]
fn a_device_outcome_follows_its_failure() {
    let healthy = classify_descriptor(0x1);
    let hung_up = classify_descriptor(0x11);
    assert_eq!(device_outcome(healthy, None), DeviceOutcome::Live);
    assert_eq!(device_outcome(hung_up, None), DeviceOutcome::RetireAdvancingEpoch);
    assert_eq!(
        device_outcome(healthy, Some(InputError::InvalidReadLength { bytes: 5 })),
        DeviceOutcome::RetireAtCurrentEpoch
    );
    assert_eq!(
        device_outcome(healthy, Some(InputError::EndOfInput { event_index: 2 })),
        DeviceOutcome::RetireAdvancingEpoch
    );
}

#[test]
fn open_and_read_failures_are_classified() {
    assert_eq!(open_failure(3, Some(libc::ENOENT)), None);
    assert_eq!(
        open_failure(3, Some(libc::EACCES)),
        Some(InputError::OpenDevice {
            event_index: 3,
            errno: libc::EACCES
        })
    );
    assert_eq!(
        open_failure(3, None),
        Some(InputError::OpenDevice {
            event_index: 3,
            errno: libc::EIO
        })
    );
    assert_eq!(
        read_record_count(4, 0, 24),
        Err(InputError::EndOfInput { event_index: 4 })
    );
    assert_eq!(
        read_record_count(4, 25, 24),
        Err(InputError::InvalidReadLength { bytes: 25 })
    );
    assert_eq!(read_record_count(4, 48, 24), Ok(2));
}

#[test]
fn a_key_is_held_as_its_last_record_left_it() {
    let mut accumulator = ReportAccumulator::new();
    accumulator.push(key(28, 1)).unwrap();
    accumulator.push(key(28, 0)).unwrap();
    accumulator.push(key(1, 1)).unwrap();
    accumulator.push(key(1, 2)).unwrap();
    let report = match accumulator.push(sync()) {
        Ok(ReportStatus::Complete(report)) => report,
        other => panic!("expected a report, got {other:?}"),
    };
    let mut normalizer = KeyNormalizer::new();
    assert!(!normalizer.is_down(KeyCode::Enter));
    normalizer
        .normalize(&report, InputPipeline::new().epoch())
        .unwrap();
    assert!(!normalizer.is_down(KeyCode::Enter));
    assert!(normalizer.is_down(KeyCode::Escape));
    assert!(!normalizer.is_down(KeyCode::Up));
}
