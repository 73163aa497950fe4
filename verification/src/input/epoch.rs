//! Epochs: the cuts in seat, device or routing state that make earlier work stale, and the
//! pipeline that turns raw records into key batches under them.

use vstd::prelude::*;

use crate::input::error::InputError;
use crate::input::key::{
    bit_is_set, evdev_code, key_index, normalize_all, KeyEvent, KeyNormalizer, KeyCode,
    NormalizedState, KEY_CODE_COUNT,
};
use crate::input::report::{assemble, Assembly, RawInputEvent, ReportAccumulator, ReportStatus};

verus! {

/// A cut in seat, device, or routing state.
#[derive(Clone, Copy, Debug, PartialEq, Eq, Structural, PartialOrd, Ord)]
pub struct Epoch(u64);

impl Epoch {
    /// The epoch's number, which only ever grows.
    pub closed spec fn number(self) -> u64 {
        self.0
    }

    pub fn value(self) -> (value: u64)
        ensures
            value == self.number(),
    {
        self.0
    }
}

/// The state change that invalidated work produced under the previous epoch.
#[derive(Clone, Copy, Debug, PartialEq, Eq, Structural)]
pub enum EpochChange {
    Seat,
    Device,
    Routing,
}

/// A complete normalized report or an explicit loss-of-continuity boundary.
#[derive(Clone, Debug, PartialEq, Eq)]
pub enum InputBatch {
    Keys { epoch: Epoch, events: Vec<KeyEvent> },
    Discontinuity { epoch: Epoch },
}

impl InputBatch {
    pub fn epoch(&self) -> (epoch: Epoch)
        ensures
            epoch == match self {
                InputBatch::Keys { epoch, .. } => *epoch,
                InputBatch::Discontinuity { epoch } => *epoch,
            },
    {
        match self {
            InputBatch::Keys { epoch, .. } => *epoch,
            InputBatch::Discontinuity { epoch } => *epoch,
        }
    }

    /// The key events a batch carries; a discontinuity carries none.
    pub fn events(&self) -> (events: &[KeyEvent])
        ensures
            match self {
                InputBatch::Keys { events: carried, .. } => events@ == carried@,
                InputBatch::Discontinuity { .. } => events@.len() == 0,
            },
    {
        match self {
            InputBatch::Keys { events, .. } => events.as_slice(),
            InputBatch::Discontinuity { .. } => &[],
        }
    }
}

/// The action required after one raw event is consumed.
#[derive(Clone, Debug, PartialEq, Eq)]
pub enum PipelineStatus {
    Pending,
    Batch(InputBatch),
    ReacquireKeyState,
}

/// Pure report, normalization, and epoch state shared by device and replay readers.
#[derive(Debug)]
pub struct InputPipeline {
    reports: ReportAccumulator,
    keys: KeyNormalizer,
    epoch: Epoch,
    needs_reacquisition: bool,
}

impl InputPipeline {
    /// The report under assembly.
    pub closed spec fn reports(&self) -> ReportAccumulator {
        self.reports
    }

    /// The physical key state.
    pub closed spec fn keys(&self) -> KeyNormalizer {
        self.keys
    }

    /// The current epoch.
    pub closed spec fn current(&self) -> Epoch {
        self.epoch
    }

    /// Whether records were lost and key state must be reacquired before anything else.
    pub closed spec fn awaiting_reacquisition(&self) -> bool {
        self.needs_reacquisition
    }

    pub fn new() -> (pipeline: InputPipeline)
        ensures
            pipeline.current().number() == 1,
            !pipeline.awaiting_reacquisition(),
            pipeline.reports().pending().len() == 0,
            !pipeline.reports().dropping(),
            forall|slot: int|
                0 <= slot < KEY_CODE_COUNT ==> !pipeline.keys().held()[slot]
                    && !pipeline.keys().suppressed()[slot],
    {
        InputPipeline {
            reports: ReportAccumulator::new(),
            keys: KeyNormalizer::new(),
            epoch: Epoch(1),
            needs_reacquisition: false,
        }
    }

    pub fn epoch(&self) -> (epoch: Epoch)
        ensures
            epoch == self.current(),
    {
        self.epoch
    }

    /// Rejects stale work immediately before the next delivery boundary: an event is delivered
    /// only under the epoch it was produced in.
    pub fn accept(&self, event: KeyEvent) -> (delivered: Option<KeyEvent>)
        ensures
            delivered == (if event.epoch == self.current() {
                Some(event)
            } else {
                None
            }),
    {
        if event.epoch == self.epoch {
            Some(event)
        } else {
            None
        }
    }

    /// Consumes one raw record.
    ///
    /// While key state awaits reacquisition nothing is consumed. Otherwise the record goes to
    /// the report under assembly; a completed report is normalized under the current epoch, and
    /// a discontinuity demands that key state be reacquired.
    pub fn push(&mut self, event: RawInputEvent) -> (status: Result<PipelineStatus, InputError>)
        ensures
            final(self).current() == old(self).current(),
            old(self).awaiting_reacquisition() ==> {
                &&& status == Err::<PipelineStatus, InputError>(InputError::ReacquisitionRequired)
                &&& *final(self) == *old(self)
            },
            !old(self).awaiting_reacquisition() ==> ({
                let (pending, dropping, outcome) = assemble(
                    old(self).reports().pending(),
                    old(self).reports().dropping(),
                    event,
                );
                let held = old(self).keys().held();
                let suppressed = old(self).keys().suppressed();
                &&& final(self).reports().pending() == pending
                &&& final(self).reports().dropping() == dropping
                &&& final(self).awaiting_reacquisition() == (outcome is Discontinuity)
                &&& match outcome {
                    Assembly::Pending => {
                        &&& status == Ok::<PipelineStatus, InputError>(PipelineStatus::Pending)
                        &&& final(self).keys().held() == held
                        &&& final(self).keys().suppressed() == suppressed
                    },
                    Assembly::TooLarge => {
                        &&& status == Err::<PipelineStatus, InputError>(InputError::ReportTooLarge)
                        &&& final(self).keys().held() == held
                        &&& final(self).keys().suppressed() == suppressed
                    },
                    Assembly::Discontinuity => {
                        &&& status == Ok::<PipelineStatus, InputError>(
                            PipelineStatus::ReacquireKeyState,
                        )
                        &&& final(self).keys().held() == held
                        &&& final(self).keys().suppressed() == suppressed
                    },
                    Assembly::Complete(records) => match normalize_all(
                        held,
                        suppressed,
                        records,
                        old(self).current(),
                    ) {
                        Ok(state) => {
                            &&& status matches Ok(
                                PipelineStatus::Batch(InputBatch::Keys { epoch, events }),
                            )
                            &&& status->Ok_0->Batch_0->Keys_epoch == old(self).current()
                            &&& status->Ok_0->Batch_0->Keys_events@ == state.2
                            &&& final(self).keys().held() == state.0
                            &&& final(self).keys().suppressed() == state.1
                        },
                        Err(error) => {
                            &&& status == Err::<PipelineStatus, InputError>(error)
                            &&& final(self).keys().held() == held
                            &&& final(self).keys().suppressed() == suppressed
                        },
                    },
                }
            }),
    {
        if self.needs_reacquisition {
            return Err(InputError::ReacquisitionRequired);
        }
        match self.reports.push(event) {
            Err(error) => Err(error),
            Ok(ReportStatus::Pending) => Ok(PipelineStatus::Pending),
            Ok(ReportStatus::Complete(report)) => match self.keys.normalize(&report, self.epoch) {
                Ok(events) => Ok(
                    PipelineStatus::Batch(InputBatch::Keys { epoch: self.epoch, events }),
                ),
                Err(error) => Err(error),
            },
            Ok(ReportStatus::Discontinuity) => {
                self.needs_reacquisition = true;
                Ok(PipelineStatus::ReacquireKeyState)
            },
        }
    }

    /// Rebuilds private physical state after loss without synthesizing transitions.
    ///
    /// Only after a discontinuity: the epoch advances, each key is held and suppressed exactly
    /// when its bit is set, and a discontinuity under the new epoch is returned.
    pub fn reacquire(&mut self, bitmap: &[u8]) -> (batch: Result<InputBatch, InputError>)
        ensures
            !old(self).awaiting_reacquisition() ==> {
                &&& batch == Err::<InputBatch, InputError>(InputError::ReacquisitionNotRequired)
                &&& *final(self) == *old(self)
            },
            old(self).awaiting_reacquisition() && old(self).current().number() == u64::MAX ==> {
                &&& batch == Err::<InputBatch, InputError>(InputError::EpochOverflow)
                &&& *final(self) == *old(self)
            },
            old(self).awaiting_reacquisition() && old(self).current().number() < u64::MAX ==> {
                &&& batch == Ok::<InputBatch, InputError>(
                    InputBatch::Discontinuity { epoch: final(self).current() },
                )
                &&& final(self).current().number() == old(self).current().number() + 1
                &&& !final(self).awaiting_reacquisition()
                &&& final(self).reports().pending().len() == 0
                &&& !final(self).reports().dropping()
                &&& forall|key: KeyCode|
                    #![trigger key_index(key)]
                    final(self).keys().held()[key_index(key)] == bit_is_set(
                        bitmap@,
                        evdev_code(key),
                    ) && final(self).keys().suppressed()[key_index(key)] == bit_is_set(
                        bitmap@,
                        evdev_code(key),
                    )
            },
    {
        if !self.needs_reacquisition {
            return Err(InputError::ReacquisitionNotRequired);
        }
        match self.advance(EpochChange::Device) {
            Ok(_) => {},
            Err(error) => {
                return Err(error);
            },
        }
        self.keys.reacquire(bitmap);
        self.needs_reacquisition = false;
        Ok(InputBatch::Discontinuity { epoch: self.epoch })
    }

    /// Establishes the initial suppressed baseline before the first report is accepted.
    pub fn initialize_key_state(&mut self, bitmap: &[u8])
        ensures
            final(self).current() == old(self).current(),
            final(self).awaiting_reacquisition() == old(self).awaiting_reacquisition(),
            final(self).reports() == old(self).reports(),
            forall|key: KeyCode|
                #![trigger key_index(key)]
                final(self).keys().held()[key_index(key)] == bit_is_set(bitmap@, evdev_code(key))
                    && final(self).keys().suppressed()[key_index(key)] == bit_is_set(
                    bitmap@,
                    evdev_code(key),
                ),
    {
        self.keys.reacquire(bitmap);
    }

    /// Cuts queued work and prevents held controls from becoming visible in the new epoch.
    ///
    /// Every kind of change advances the epoch by one; the report under assembly is discarded
    /// and every held key is suppressed until it is released.
    pub fn advance(&mut self, change: EpochChange) -> (epoch: Result<Epoch, InputError>)
        ensures
            old(self).current().number() == u64::MAX ==> {
                &&& epoch == Err::<Epoch, InputError>(InputError::EpochOverflow)
                &&& *final(self) == *old(self)
            },
            old(self).current().number() < u64::MAX ==> {
                &&& epoch == Ok::<Epoch, InputError>(final(self).current())
                &&& final(self).current().number() == old(self).current().number() + 1
                &&& final(self).awaiting_reacquisition() == old(self).awaiting_reacquisition()
                &&& final(self).reports().pending().len() == 0
                &&& !final(self).reports().dropping()
                &&& final(self).keys().held() == old(self).keys().held()
                &&& final(self).keys().suppressed() == old(self).keys().held()
            },
    {
        match self.epoch.0.checked_add(1) {
            Some(next) => {
                self.epoch = Epoch(next);
                self.reports.reset();
                self.keys.suppress_held();
                Ok(self.epoch)
            },
            None => Err(InputError::EpochOverflow),
        }
    }
}

impl Default for InputPipeline {
    fn default() -> (pipeline: InputPipeline)
        ensures
            pipeline.current().number() == 1,
            !pipeline.awaiting_reacquisition(),
    {
        InputPipeline::new()
    }
}

} // verus!
