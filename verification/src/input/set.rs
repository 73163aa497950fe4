//! Fault isolation across a set of input devices: which device produced a batch, which devices
//! to retire, and how retiring them leaves the others.

use vstd::prelude::*;

use crate::input::epoch::InputBatch;
use crate::input::error::InputError;
use crate::input::device::DeviceClass;
use crate::input::readiness::DescriptorReadiness;

verus! {

/// One normalized report tagged with the stable index of its producing device.
#[derive(Clone, Debug, PartialEq, Eq)]
pub struct DeviceInputBatch {
    event_index: u32,
    batch: InputBatch,
}

impl DeviceInputBatch {
    /// The device that produced the batch.
    pub closed spec fn producer(&self) -> u32 {
        self.event_index
    }

    /// The batch itself.
    pub closed spec fn carried(&self) -> InputBatch {
        self.batch
    }

    pub fn new(event_index: u32, batch: InputBatch) -> (tagged: DeviceInputBatch)
        ensures
            tagged.producer() == event_index,
            tagged.carried() == batch,
    {
        DeviceInputBatch { event_index, batch }
    }

    pub fn event_index(&self) -> (event_index: u32)
        ensures
            event_index == self.producer(),
    {
        self.event_index
    }

    pub fn batch(&self) -> (batch: &InputBatch)
        ensures
            *batch == self.carried(),
    {
        &self.batch
    }

    pub fn into_batch(self) -> (batch: InputBatch)
        ensures
            batch == self.carried(),
    {
        self.batch
    }
}

/// Tags each batch a device produced with that device's index, keeping their order.
pub fn tag_batches(event_index: u32, batches: Vec<InputBatch>) -> (tagged: Vec<DeviceInputBatch>)
    ensures
        tagged@.len() == batches@.len(),
        forall|i: int|
            0 <= i < tagged@.len() ==> #[trigger] tagged@[i].producer() == event_index
                && tagged@[i].carried() == batches@[i],
{
    let ghost original = batches@;
    let mut remaining = batches;
    let mut tagged: Vec<DeviceInputBatch> = Vec::new();
    while remaining.len() > 0
        invariant
            tagged@.len() + remaining@.len() == original.len(),
            remaining@ == original.subrange(tagged@.len() as int, original.len() as int),
            forall|i: int|
                0 <= i < tagged@.len() ==> #[trigger] tagged@[i].producer() == event_index
                    && tagged@[i].carried() == original[i],
        decreases remaining@.len(),
    {
        let batch = remaining.remove(0);
        tagged.push(DeviceInputBatch { event_index, batch });
        assert(remaining@ =~= original.subrange(tagged@.len() as int, original.len() as int));
    }
    tagged
}

/// The values whose positions are not in `removed`, in their original order.
pub open spec fn kept<T>(values: Seq<T>, removed: Set<int>) -> Seq<T>
    decreases values.len(),
{
    if values.len() == 0 {
        Seq::empty()
    } else {
        let rest = kept(values.drop_last(), removed);
        if removed.contains(values.len() - 1) {
            rest
        } else {
            rest.push(values.last())
        }
    }
}

/// The positions a list of indices names.
pub open spec fn listed_positions(indices: Seq<usize>) -> Set<int> {
    Set::new(|position: int| exists|a: int| 0 <= a < indices.len() && indices[a] == position)
}

/// Removes the values at the listed positions, keeping the order of the rest.
///
/// The positions are the ones a scan over the values discovered, so they are increasing and
/// each names a value.
pub fn remove_indices<T>(values: &mut Vec<T>, indices: &[usize])
    requires
        forall|a: int, b: int| 0 <= a < b < indices@.len() ==> indices@[a] < indices@[b],
        forall|a: int| 0 <= a < indices@.len() ==> indices@[a] < old(values)@.len(),
    ensures
        final(values)@ == kept(old(values)@, listed_positions(indices@)),
{
    let ghost original = values@;
    let ghost removed = listed_positions(indices@);
    let mut survivors: Vec<T> = Vec::new();
    let mut position: usize = 0;
    let mut next: usize = 0;
    let length = values.len();
    while position < length
        invariant
            length == original.len(),
            position <= length,
            next <= indices@.len(),
            values@ == original.subrange(position as int, length as int),
            survivors@ == kept(original.take(position as int), removed),
            removed == listed_positions(indices@),
            forall|a: int, b: int| 0 <= a < b < indices@.len() ==> indices@[a] < indices@[b],
            forall|a: int| 0 <= a < next ==> indices@[a] < position,
            forall|a: int| next <= a < indices@.len() ==> indices@[a] >= position,
        decreases length - position,
    {
        let item = values.remove(0);
        let listed = next < indices.len() && indices[next] == position;
        proof {
            assert(original.take(position + 1).drop_last() =~= original.take(position as int));
            assert(original.take(position + 1).last() == original[position as int]);
            assert(item == original[position as int]);
            let wanted = position as int;
            if listed {
                assert(indices@[next as int] == wanted);
            } else {
                assert forall|a: int| 0 <= a < indices@.len() implies indices@[a] != position by {
                    if a > next {
                        assert(indices@[next as int] < indices@[a]);
                    }
                }
                assert(!removed.contains(wanted)) by {
                    if removed.contains(wanted) {
                        let a = choose|a: int| 0 <= a < indices@.len() && indices@[a] == wanted;
                        assert(indices@[a] == position);
                    }
                }
            }
        }
        if listed {
            next = next + 1;
        } else {
            survivors.push(item);
        }
        position = position + 1;
        proof {
            assert(values@ =~= original.subrange(position as int, length as int));
        }
    }
    proof {
        assert(original.take(length as int) =~= original);
    }
    *values = survivors;
}

/// What becomes of a device after one wait: it stays, or it is retired with a final
/// discontinuity.
#[derive(Clone, Copy, Debug, PartialEq, Eq, Structural)]
pub enum DeviceOutcome {
    /// The device stays in the set.
    Live,
    /// The device is retired, and its epoch advanced for the discontinuity that ends it.
    RetireAdvancingEpoch,
    /// The device is retired under its current epoch, which the failed read already advanced.
    RetireAtCurrentEpoch,
}

/// Decides a device's fate from its readiness and, if it was read, how the read failed.
///
/// A read that returned a torn record has already cut the device's epoch, so its final
/// discontinuity carries the current epoch; any other failure, of the read or reported by the
/// wait, retires the device under a new epoch. A device that neither failed nor failed to read
/// stays.
pub fn device_outcome(readiness: DescriptorReadiness, read_failure: Option<InputError>) -> (outcome:
    DeviceOutcome)
    ensures
        outcome == match read_failure {
            Some(InputError::InvalidReadLength { .. }) => DeviceOutcome::RetireAtCurrentEpoch,
            Some(_) => DeviceOutcome::RetireAdvancingEpoch,
            None => if readiness.failed() {
                DeviceOutcome::RetireAdvancingEpoch
            } else {
                DeviceOutcome::Live
            },
        },
{
    match read_failure {
        Some(InputError::InvalidReadLength { .. }) => DeviceOutcome::RetireAtCurrentEpoch,
        Some(_) => DeviceOutcome::RetireAdvancingEpoch,
        None => if readiness.has_failed() {
            DeviceOutcome::RetireAdvancingEpoch
        } else {
            DeviceOutcome::Live
        },
    }
}

/// The positions of the devices Atria has no key normalization for.
pub open spec fn unhandled_positions(classes: Seq<DeviceClass>) -> Set<int> {
    Set::new(|position: int| 0 <= position < classes.len() && classes[position] != DeviceClass::KeyboardRemote)
}

/// Keeps the devices classed as keyboards or remotes, in order; a set with none of them is
/// refused.
pub fn retain_key_devices<T>(devices: Vec<T>, classes: &[DeviceClass]) -> (kept_devices: Result<
    Vec<T>,
    InputError,
>)
    requires
        classes@.len() == devices@.len(),
    ensures
        (forall|i: int| 0 <= i < classes@.len() ==> classes@[i] != DeviceClass::KeyboardRemote)
            ==> kept_devices == Err::<Vec<T>, InputError>(InputError::EmptyInputSet),
        (exists|i: int| 0 <= i < classes@.len() && classes@[i] == DeviceClass::KeyboardRemote)
            ==> (kept_devices matches Ok(retained) && retained@ == kept(
            devices@,
            unhandled_positions(classes@),
        )),
{
    let ghost original = devices@;
    let ghost removed = unhandled_positions(classes@);
    let mut remaining = devices;
    let mut retained: Vec<T> = Vec::new();
    let mut position: usize = 0;
    let length = classes.len();
    while position < length
        invariant
            length == classes@.len(),
            length == original.len(),
            position <= length,
            removed == unhandled_positions(classes@),
            remaining@ == original.subrange(position as int, length as int),
            retained@ == kept(original.take(position as int), removed),
            retained@.len() == 0 <==> forall|i: int|
                0 <= i < position ==> classes@[i] != DeviceClass::KeyboardRemote,
        decreases length - position,
    {
        let device = remaining.remove(0);
        proof {
            assert(original.take(position + 1).drop_last() =~= original.take(position as int));
            assert(original.take(position + 1).last() == original[position as int]);
        }
        if classes[position] == DeviceClass::KeyboardRemote {
            retained.push(device);
        }
        position = position + 1;
        proof {
            assert(remaining@ =~= original.subrange(position as int, length as int));
        }
    }
    proof {
        assert(original.take(length as int) =~= original);
    }
    if retained.len() == 0 {
        return Err(InputError::EmptyInputSet);
    }
    Ok(retained)
}

} // verus!
