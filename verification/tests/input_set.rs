use std::time::Duration;

use atria::input::device::timeout_milliseconds;
use atria::input::epoch::{InputPipeline, PipelineStatus};
use atria::input::report::RawInputEvent;
use atria::input::device::{DeviceClass, EventTypeSet};
use atria::input::error::InputError;
use atria::input::set::{remove_indices, retain_key_devices, tag_batches};

#[test]
fn batches_carry_their_producing_device() {
    let mut pipeline = InputPipeline::new();
    let batch = match pipeline
        .push(RawInputEvent::new(0, 0, 0, 0, 0))
        .expect("empty report should normalize")
    {
        PipelineStatus::Batch(batch) => batch,
        status => panic!("expected a batch, got {status:?}"),
    };
    let tagged = tag_batches(19, vec![batch]);
    assert_eq!(tagged[0].event_index(), 19);
}

#[test]
fn removing_failed_indices_keeps_other_devices_in_order() {
    let mut devices = vec![10, 11, 12, 13];
    remove_indices(&mut devices, &[1, 3]);
    assert_eq!(devices, [10, 12]);
}

#[test]
fn set_submillisecond_timeout_rounds_up_to_avoid_an_early_wakeup() {
    let timeout = Duration::from_nanos(1);
    assert_eq!(
        timeout_milliseconds(Some((timeout.as_secs(), timeout.subsec_nanos()))),
        Ok(1)
    );
}

#[test]
fn only_key_devices_are_kept_and_none_is_an_error() {
    let pointer = DeviceClass::Unhandled {
        event_types: EventTypeSet::from_bits(1 << 2),
    };
    let kept = retain_key_devices(
        vec!["mouse", "remote", "keyboard"],
        &[pointer, DeviceClass::KeyboardRemote, DeviceClass::KeyboardRemote],
    );
    assert_eq!(kept, Ok(vec!["remote", "keyboard"]));
    assert_eq!(
        retain_key_devices(vec!["mouse"], &[pointer]),
        Err(InputError::EmptyInputSet)
    );
    assert_eq!(
        retain_key_devices(Vec::<u8>::new(), &[]),
        Err(InputError::EmptyInputSet)
    );
}
