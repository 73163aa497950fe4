//! Reassembling the kernel's report boundaries from an arbitrary sequence of records.

use vstd::prelude::*;

use crate::input::error::InputError;

verus! {

/// The synchronization event type.
pub const EV_SYN: u16 = 0;
/// The key event type.
pub const EV_KEY: u16 = 1;
/// The synchronization code that closes a report.
pub const SYN_REPORT: u16 = 0;
/// The synchronization code saying the kernel dropped records.
pub const SYN_DROPPED: u16 = 3;
/// The most records one report may hold before it is discarded.
pub const MAX_REPORT_EVENTS: usize = 256;

/// One architecture-independent evdev record.
#[derive(Clone, Copy, Debug, PartialEq, Eq, Structural)]
pub struct RawInputEvent {
    pub seconds: i64,
    pub microseconds: i64,
    pub event_type: u16,
    pub code: u16,
    pub value: i32,
}

impl RawInputEvent {
    pub fn new(seconds: i64, microseconds: i64, event_type: u16, code: u16, value: i32) -> (event:
        RawInputEvent)
        ensures
            event == (RawInputEvent { seconds, microseconds, event_type, code, value }),
    {
        RawInputEvent { seconds, microseconds, event_type, code, value }
    }
}

/// A complete evdev report with its synchronization marker removed.
#[derive(Clone, Debug, Default, PartialEq, Eq)]
pub struct RawReport {
    events: Vec<RawInputEvent>,
}

impl View for RawReport {
    type V = Seq<RawInputEvent>;

    closed spec fn view(&self) -> Seq<RawInputEvent> {
        self.events@
    }
}

impl RawReport {
    pub fn events(&self) -> (events: &[RawInputEvent])
        ensures
            events@ == self@,
    {
        self.events.as_slice()
    }
}

/// Progress made while assembling one evdev report.
#[derive(Clone, Debug, PartialEq, Eq)]
pub enum ReportStatus {
    Pending,
    Complete(RawReport),
    Discontinuity,
}

/// What one record does to the report under assembly.
pub enum Assembly {
    /// Nothing is complete yet.
    Pending,
    /// A report closed, holding these records.
    Complete(Seq<RawInputEvent>),
    /// Records were lost, and the report that closed is not to be trusted.
    Discontinuity,
    /// The report outgrew its bound and is being discarded through its boundary.
    TooLarge,
}

/// The records pending, whether records are being discarded, and the outcome, after one more
/// record reaches an accumulator holding `pending` and `dropping`.
pub open spec fn assemble(pending: Seq<RawInputEvent>, dropping: bool, event: RawInputEvent) -> (
    Seq<RawInputEvent>,
    bool,
    Assembly,
) {
    if event.event_type == EV_SYN && event.code == SYN_DROPPED {
        (Seq::empty(), true, Assembly::Pending)
    } else if event.event_type == EV_SYN && event.code == SYN_REPORT {
        if dropping {
            (pending, false, Assembly::Discontinuity)
        } else {
            (Seq::empty(), false, Assembly::Complete(pending))
        }
    } else if dropping {
        (pending, true, Assembly::Pending)
    } else if pending.len() >= MAX_REPORT_EVENTS {
        (Seq::empty(), true, Assembly::TooLarge)
    } else {
        (pending.push(event), false, Assembly::Pending)
    }
}

/// The status an accumulator answers for an outcome.
pub open spec fn answers(status: Result<ReportStatus, InputError>, outcome: Assembly) -> bool {
    match outcome {
        Assembly::Pending => status == Ok::<ReportStatus, InputError>(ReportStatus::Pending),
        Assembly::Complete(records) => status matches Ok(ReportStatus::Complete(report))
            && report@ == records,
        Assembly::Discontinuity => status == Ok::<ReportStatus, InputError>(
            ReportStatus::Discontinuity,
        ),
        Assembly::TooLarge => status == Err::<ReportStatus, InputError>(InputError::ReportTooLarge),
    }
}

/// Preserves the kernel's report boundary across arbitrary read boundaries.
#[derive(Debug, Default)]
pub struct ReportAccumulator {
    pending: Vec<RawInputEvent>,
    dropping: bool,
}

impl ReportAccumulator {
    /// The records of the report being assembled.
    pub closed spec fn pending(&self) -> Seq<RawInputEvent> {
        self.pending@
    }

    /// Whether records are being discarded until the next report boundary.
    pub closed spec fn dropping(&self) -> bool {
        self.dropping
    }

    pub fn new() -> (accumulator: ReportAccumulator)
        ensures
            accumulator.pending().len() == 0,
            !accumulator.dropping(),
    {
        ReportAccumulator { pending: Vec::new(), dropping: false }
    }

    /// Accepts one record and returns a report only when `SYN_REPORT` closes it.
    ///
    /// `SYN_DROPPED` discards the report under assembly and everything up to the next boundary,
    /// which is then reported as a discontinuity rather than a report. A report that would grow
    /// past [`MAX_REPORT_EVENTS`] is refused and discarded through its boundary the same way.
    pub fn push(&mut self, event: RawInputEvent) -> (status: Result<ReportStatus, InputError>)
        ensures
            ({
                let (pending, dropping, outcome) = assemble(
                    old(self).pending(),
                    old(self).dropping(),
                    event,
                );
                &&& final(self).pending() == pending
                &&& final(self).dropping() == dropping
                &&& answers(status, outcome)
            }),
    {
        if event.event_type == EV_SYN && event.code == SYN_DROPPED {
            self.pending.clear();
            self.dropping = true;
            return Ok(ReportStatus::Pending);
        }
        if event.event_type == EV_SYN && event.code == SYN_REPORT {
            if self.dropping {
                self.dropping = false;
                return Ok(ReportStatus::Discontinuity);
            }
            let mut events: Vec<RawInputEvent> = Vec::new();
            std::mem::swap(&mut events, &mut self.pending);
            return Ok(ReportStatus::Complete(RawReport { events }));
        }
        if self.dropping {
            return Ok(ReportStatus::Pending);
        }
        if self.pending.len() >= MAX_REPORT_EVENTS {
            self.pending.clear();
            self.dropping = true;
            return Err(InputError::ReportTooLarge);
        }
        self.pending.push(event);
        Ok(ReportStatus::Pending)
    }

    /// Discards an incomplete report when device ownership or continuity changes.
    pub fn reset(&mut self)
        ensures
            final(self).pending().len() == 0,
            !final(self).dropping(),
    {
        self.pending.clear();
        self.dropping = false;
    }
}

/// A report under assembly never holds more than [`MAX_REPORT_EVENTS`] records: whatever record
/// arrives, an accumulator within the bound stays within it.
pub proof fn assembly_stays_bounded(pending: Seq<RawInputEvent>, dropping: bool, event: RawInputEvent)
    requires
        pending.len() <= MAX_REPORT_EVENTS,
    ensures
        assemble(pending, dropping, event).0.len() <= MAX_REPORT_EVENTS,
{
}

/// While records are being discarded nothing is assembled, and the boundary that ends the
/// discarding is reported as a discontinuity, never as a report.
pub proof fn discarding_never_completes_a_report(
    pending: Seq<RawInputEvent>,
    event: RawInputEvent,
)
    ensures
        !(assemble(pending, true, event).2 is Complete),
        !(assemble(pending, true, event).2 is TooLarge),
        event.event_type == EV_SYN && event.code == SYN_REPORT ==> assemble(
            pending,
            true,
            event,
        ).2 is Discontinuity,
{
}

/// The state an accumulator holding `pending` and `dropping` is in once `events` have reached
/// it, in order.
pub open spec fn feed(pending: Seq<RawInputEvent>, dropping: bool, events: Seq<RawInputEvent>) -> (
    Seq<RawInputEvent>,
    bool,
)
    decreases events.len(),
{
    if events.len() == 0 {
        (pending, dropping)
    } else {
        let (held, discarding) = feed(pending, dropping, events.drop_last());
        let (next, next_dropping, _) = assemble(held, discarding, events.last());
        (next, next_dropping)
    }
}

/// Records gather until a boundary: a record that is not a boundary is added to the report when
/// records are not being discarded and the report has room; a full report is discarded, with
/// everything up to its boundary; a `SYN_REPORT` closes the report with exactly the records
/// gathered and starts an empty one, unless records were being discarded, when it only ends the
/// discarding.
pub proof fn records_gather_until_a_boundary(pending: Seq<RawInputEvent>, dropping: bool, event: RawInputEvent)
    ensures
        !(event.event_type == EV_SYN && (event.code == SYN_REPORT || event.code == SYN_DROPPED))
            && !dropping && pending.len() < MAX_REPORT_EVENTS ==> assemble(pending, dropping, event).0
            == pending.push(event) && !assemble(pending, dropping, event).1 && assemble(
            pending,
            dropping,
            event,
        ).2 is Pending,
        !(event.event_type == EV_SYN && (event.code == SYN_REPORT || event.code == SYN_DROPPED))
            && !dropping && pending.len() >= MAX_REPORT_EVENTS ==> assemble(pending, dropping, event).0.len()
            == 0 && assemble(pending, dropping, event).1 && assemble(pending, dropping, event).2 is TooLarge,
        !(event.event_type == EV_SYN && (event.code == SYN_REPORT || event.code == SYN_DROPPED))
            && dropping ==> assemble(pending, dropping, event).0 == pending && assemble(
            pending,
            dropping,
            event,
        ).1 && assemble(pending, dropping, event).2 is Pending,
        event.event_type == EV_SYN && event.code == SYN_REPORT && !dropping ==> assemble(
            pending,
            dropping,
            event,
        ).0.len() == 0 && !assemble(pending, dropping, event).1 && (assemble(pending, dropping, event).2
            matches Assembly::Complete(records) && records == pending),
        event.event_type == EV_SYN && event.code == SYN_REPORT && dropping ==> !assemble(
            pending,
            dropping,
            event,
        ).1,
{
}

/// A report that closes is exactly the records pending when its boundary arrived.
pub proof fn a_report_is_what_was_pending(pending: Seq<RawInputEvent>, dropping: bool, event: RawInputEvent)
    ensures
        assemble(pending, dropping, event).2 matches Assembly::Complete(records) ==> records
            == pending && event.event_type == EV_SYN && event.code == SYN_REPORT && !dropping,
{
}

/// A dropped record loses everything before it: right after `SYN_DROPPED` nothing is pending
/// and records are discarded up to the next boundary; from then on every record held, and every
/// record of any report that closes, was pushed after the drop.
pub proof fn nothing_before_a_drop_survives_it(
    pending: Seq<RawInputEvent>,
    dropping: bool,
    dropped: RawInputEvent,
    later: Seq<RawInputEvent>,
    next: RawInputEvent,
)
    requires
        dropped.event_type == EV_SYN,
        dropped.code == SYN_DROPPED,
    ensures
        assemble(pending, dropping, dropped).0.len() == 0,
        assemble(pending, dropping, dropped).1,
        ({
            let (held, discarding) = feed(pending, dropping, seq![dropped] + later);
            &&& forall|i: int| 0 <= i < held.len() ==> later.contains(#[trigger] held[i])
            &&& assemble(held, discarding, next).2 matches Assembly::Complete(records) ==> forall|i: int|
                0 <= i < records.len() ==> later.contains(#[trigger] records[i])
        }),
{
    lemma_held_after_drop(pending, dropping, dropped, later);
}

proof fn lemma_held_after_drop(
    pending: Seq<RawInputEvent>,
    dropping: bool,
    dropped: RawInputEvent,
    later: Seq<RawInputEvent>,
)
    requires
        dropped.event_type == EV_SYN,
        dropped.code == SYN_DROPPED,
    ensures
        ({
            let (held, _) = feed(pending, dropping, seq![dropped] + later);
            forall|i: int| 0 <= i < held.len() ==> later.contains(#[trigger] held[i])
        }),
    decreases later.len(),
{
    let events = seq![dropped] + later;
    if later.len() == 0 {
        assert(events.drop_last() =~= Seq::<RawInputEvent>::empty());
        assert(events.last() == dropped);
    } else {
        let shorter = later.drop_last();
        lemma_held_after_drop(pending, dropping, dropped, shorter);
        assert(events.drop_last() =~= seq![dropped] + shorter);
        assert(events.last() == later.last());
        let (held, discarding) = feed(pending, dropping, seq![dropped] + shorter);
        let next = assemble(held, discarding, later.last()).0;
        assert forall|i: int| 0 <= i < next.len() implies later.contains(#[trigger] next[i]) by {
            if i < held.len() && next[i] == held[i] {
                assert(shorter.contains(held[i]));
                let k = choose|k: int| 0 <= k < shorter.len() && shorter[k] == held[i];
                assert(later[k] == held[i]);
            } else {
                assert(next[i] == later.last());
                assert(later[later.len() - 1] == later.last());
            }
        }
    }
}

} // verus!
