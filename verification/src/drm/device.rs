//! The resources a DRM device reports, and the choice of connector and CRTC made from them.

use vstd::prelude::*;

use crate::drm::error::DrmError;
use crate::drm::logic::{mode_choice, select_mode, Mode, ModeSelection};
use crate::path::{decimal, indexed_path};

verus! {

/// Which card to open, which connector to drive (the first connected one if unset), and in
/// which mode.
#[derive(Clone, Copy, Debug, Default, PartialEq, Eq, Structural)]
pub struct DeviceConfig {
    pub card_index: u32,
    pub connector_id: Option<u32>,
    pub mode: ModeSelection,
}

/// A connector as the device reports it.
#[derive(Clone, Debug, PartialEq, Eq)]
pub struct Connector {
    pub id: u32,
    /// The encoder currently attached, or zero.
    pub encoder_id: u32,
    /// Every encoder the connector can be driven through.
    pub encoder_ids: Vec<u32>,
    pub modes: Vec<Mode>,
    pub connected: bool,
}

/// An encoder, the CRTC it currently feeds (zero for none), and the CRTCs it could feed, one
/// bit per position in the device's CRTC list.
#[derive(Clone, Copy, Debug, PartialEq, Eq, Structural)]
pub struct Encoder {
    pub id: u32,
    pub crtc_id: u32,
    pub possible_crtcs: u32,
}

/// Everything a device reported in one consistent enumeration.
#[derive(Clone, Debug, PartialEq, Eq)]
pub struct ResourceSnapshot {
    pub connectors: Vec<Connector>,
    pub encoders: Vec<Encoder>,
    pub crtc_ids: Vec<u32>,
}

/// A connector is the one a request asks for: the connected one with the requested id, or any
/// connected one.
pub open spec fn wanted_connector(connector: Connector, requested: Option<u32>) -> bool {
    connector.connected && match requested {
        Some(id) => connector.id == id,
        None => true,
    }
}

/// The first connector, from position `from` on, that the request asks for.
pub open spec fn first_wanted(connectors: Seq<Connector>, requested: Option<u32>, from: int) -> Option<
    int,
>
    decreases connectors.len() - from,
{
    if from < 0 || from >= connectors.len() {
        None
    } else if wanted_connector(connectors[from], requested) {
        Some(from)
    } else {
        first_wanted(connectors, requested, from + 1)
    }
}

/// The connector a request picks: the first it asks for, or why there is none.
pub open spec fn connector_choice(connectors: Seq<Connector>, requested: Option<u32>) -> Result<
    usize,
    DrmError,
> {
    match first_wanted(connectors, requested, 0) {
        Some(index) => Ok(index as usize),
        None => match requested {
            Some(id) => Err(DrmError::RequestedConnectorUnavailable(id)),
            None => Err(DrmError::NoConnectedConnector),
        },
    }
}

proof fn lemma_first_wanted_bounds(connectors: Seq<Connector>, requested: Option<u32>, from: int)
    requires
        0 <= from,
    ensures
        first_wanted(connectors, requested, from) matches Some(i) ==> from <= i < connectors.len()
            && wanted_connector(connectors[i], requested),
    decreases connectors.len() - from,
{
    if from < connectors.len() && !wanted_connector(connectors[from], requested) {
        lemma_first_wanted_bounds(connectors, requested, from + 1);
    }
}

/// Picks the first connector the request asks for.
pub fn choose_connector(connectors: &[Connector], requested: Option<u32>) -> (index: Result<
    usize,
    DrmError,
>)
    ensures
        index == connector_choice(connectors@, requested),
        index matches Ok(i) ==> i < connectors@.len() && wanted_connector(
            connectors@[i as int],
            requested,
        ),
{
    proof {
        lemma_first_wanted_bounds(connectors@, requested, 0);
    }
    let mut i: usize = 0;
    while i < connectors.len()
        invariant
            i <= connectors@.len(),
            first_wanted(connectors@, requested, 0) == first_wanted(connectors@, requested, i as int),
        decreases connectors@.len() - i,
    {
        let connector = &connectors[i];
        let wanted = connector.connected && match requested {
            Some(id) => connector.id == id,
            None => true,
        };
        if wanted {
            return Ok(i);
        }
        i = i + 1;
    }
    match requested {
        Some(id) => Err(DrmError::RequestedConnectorUnavailable(id)),
        None => Err(DrmError::NoConnectedConnector),
    }
}

/// The CRTC an encoder can feed from its capability mask: the first in the device's list, from
/// position `from` on, whose bit is set. Positions past the mask's width have no bit.
pub open spec fn possible_crtc(possible_crtcs: u32, crtc_ids: Seq<u32>, from: int) -> Option<u32>
    decreases crtc_ids.len() - from,
{
    if from < 0 || from >= crtc_ids.len() {
        None
    } else if from < 32 && possible_crtcs & (1u32 << (from as u32)) != 0u32 {
        Some(crtc_ids[from])
    } else {
        possible_crtc(possible_crtcs, crtc_ids, from + 1)
    }
}

/// The CRTC an encoder drives a connector through: the one it already feeds if the device
/// lists it, else the first it could feed.
pub open spec fn encoder_crtc(encoder: Encoder, crtc_ids: Seq<u32>) -> Option<u32> {
    if encoder.crtc_id != 0 && crtc_ids.contains(encoder.crtc_id) {
        Some(encoder.crtc_id)
    } else {
        possible_crtc(encoder.possible_crtcs, crtc_ids, 0)
    }
}

/// The first encoder, from position `from` on, with the id the connector names as attached.
pub open spec fn attached_encoder(encoders: Seq<Encoder>, encoder_id: u32, from: int) -> Option<
    Encoder,
>
    decreases encoders.len() - from,
{
    if from < 0 || from >= encoders.len() {
        None
    } else if encoders[from].id == encoder_id {
        Some(encoders[from])
    } else {
        attached_encoder(encoders, encoder_id, from + 1)
    }
}

/// An encoder the connector lists, other than the attached one it already tried.
pub open spec fn other_candidate(encoder: Encoder, connector: Connector, attached: Option<Encoder>) -> bool {
    connector.encoder_ids@.contains(encoder.id) && !(attached matches Some(a) && a.id == encoder.id)
}

/// The first CRTC, from position `from` on in the device's encoder list, that an encoder the
/// connector lists, other than the attached one, can drive.
pub open spec fn crtc_from_others(
    encoders: Seq<Encoder>,
    connector: Connector,
    attached: Option<Encoder>,
    crtc_ids: Seq<u32>,
    from: int,
) -> Option<u32>
    decreases encoders.len() - from,
{
    if from < 0 || from >= encoders.len() {
        None
    } else if other_candidate(encoders[from], connector, attached) && encoder_crtc(
        encoders[from],
        crtc_ids,
    ) is Some {
        encoder_crtc(encoders[from], crtc_ids)
    } else {
        crtc_from_others(encoders, connector, attached, crtc_ids, from + 1)
    }
}

/// The CRTC a connector is driven through: the attached encoder's, if it can drive one, else the
/// first that another encoder the connector lists can drive.
pub open spec fn chosen_crtc(resources: ResourceSnapshot, connector: Connector) -> Option<u32> {
    let attached = attached_encoder(resources.encoders@, connector.encoder_id, 0);
    let from_attached = match attached {
        Some(encoder) => encoder_crtc(encoder, resources.crtc_ids@),
        None => None,
    };
    match from_attached {
        Some(id) => Some(id),
        None => crtc_from_others(resources.encoders@, connector, attached, resources.crtc_ids@, 0),
    }
}

fn contains_id(ids: &[u32], id: u32) -> (found: bool)
    ensures
        found == ids@.contains(id),
{
    let mut i: usize = 0;
    while i < ids.len()
        invariant
            i <= ids@.len(),
            forall|j: int| 0 <= j < i ==> ids@[j] != id,
        decreases ids@.len() - i,
    {
        if ids[i] == id {
            assert(ids@[i as int] == id);
            return true;
        }
        i = i + 1;
    }
    false
}

/// The CRTC an encoder can drive, or `None`.
fn crtc_for_encoder(encoder: Encoder, crtc_ids: &[u32]) -> (crtc: Option<u32>)
    ensures
        crtc == encoder_crtc(encoder, crtc_ids@),
{
    if encoder.crtc_id != 0 && contains_id(crtc_ids, encoder.crtc_id) {
        return Some(encoder.crtc_id);
    }
    let mut index: usize = 0;
    while index < crtc_ids.len()
        invariant
            index <= crtc_ids@.len(),
            !(encoder.crtc_id != 0 && crtc_ids@.contains(encoder.crtc_id)),
            possible_crtc(encoder.possible_crtcs, crtc_ids@, 0) == possible_crtc(
                encoder.possible_crtcs,
                crtc_ids@,
                index as int,
            ),
        decreases crtc_ids@.len() - index,
    {
        let possible = encoder.possible_crtcs;
        let set = if index < 32 {
            let shift: u32 = index as u32;
            possible & (1u32 << shift) != 0
        } else {
            false
        };
        assert(set == (index < 32 && possible & (1u32 << ((index as int) as u32)) != 0u32));
        if set {
            proof {
                assert(possible_crtc(encoder.possible_crtcs, crtc_ids@, index as int) == Some(
                    crtc_ids@[index as int],
                ));
            }
            return Some(crtc_ids[index]);
        }
        index = index + 1;
    }
    None
}

/// The CRTC a connector is driven through, or why there is none: a connector that lists no
/// encoder at all, and one whose encoders can drive none of the device's CRTCs, are different
/// errors.
pub open spec fn crtc_choice(resources: ResourceSnapshot, connector: Connector) -> Result<u32, DrmError> {
    match chosen_crtc(resources, connector) {
        Some(id) => Ok(id),
        None => if connector.encoder_ids@.len() == 0 {
            Err(DrmError::ConnectorHasNoEncoder(connector.id))
        } else {
            Err(DrmError::NoCompatibleCrtc { connector_id: connector.id })
        },
    }
}

/// Picks the CRTC to drive a connector through: the attached encoder's, else the first another
/// listed encoder can drive. A connector that lists no encoder at all, and one whose encoders can
/// drive none of the device's CRTCs, are different errors.
pub fn choose_crtc(resources: &ResourceSnapshot, connector_index: usize) -> (crtc: Result<
    u32,
    DrmError,
>)
    requires
        connector_index < resources.connectors@.len(),
    ensures
        crtc == crtc_choice(*resources, resources.connectors@[connector_index as int]),
{
    let connector = &resources.connectors[connector_index];
    let encoders = resources.encoders.as_slice();
    let crtc_ids = resources.crtc_ids.as_slice();
    let mut attached: Option<Encoder> = None;
    let mut i: usize = 0;
    while i < encoders.len()
        invariant_except_break
            i <= encoders@.len(),
            attached is None,
            attached_encoder(encoders@, connector.encoder_id, 0) == attached_encoder(
                encoders@,
                connector.encoder_id,
                i as int,
            ),
        ensures
            attached == attached_encoder(encoders@, connector.encoder_id, 0),
        decreases encoders@.len() - i,
    {
        if encoders[i].id == connector.encoder_id {
            attached = Some(encoders[i]);
            break;
        }
        i = i + 1;
    }
    match attached {
        Some(encoder) => {
            match crtc_for_encoder(encoder, crtc_ids) {
                Some(id) => {
                    return Ok(id);
                },
                None => {},
            }
        },
        None => {},
    }
    let mut k: usize = 0;
    while k < encoders.len()
        invariant
            k <= encoders@.len(),
            connector_index < resources.connectors@.len(),
            *connector == resources.connectors@[connector_index as int],
            encoders@ == resources.encoders@,
            crtc_ids@ == resources.crtc_ids@,
            attached == attached_encoder(encoders@, connector.encoder_id, 0),
            match attached {
                Some(a) => encoder_crtc(a, crtc_ids@) is None,
                None => true,
            },
            crtc_from_others(encoders@, *connector, attached, crtc_ids@, 0) == crtc_from_others(
                encoders@,
                *connector,
                attached,
                crtc_ids@,
                k as int,
            ),
        decreases encoders@.len() - k,
    {
        let encoder = encoders[k];
        let listed = contains_id(connector.encoder_ids.as_slice(), encoder.id);
        let is_attached = match attached {
            Some(a) => a.id == encoder.id,
            None => false,
        };
        if listed && !is_attached {
            match crtc_for_encoder(encoder, crtc_ids) {
                Some(id) => {
                    return Ok(id);
                },
                None => {},
            }
        }
        k = k + 1;
    }
    if connector.encoder_ids.len() == 0 {
        Err(DrmError::ConnectorHasNoEncoder(connector.id))
    } else {
        Err(DrmError::NoCompatibleCrtc { connector_id: connector.id })
    }
}

/// The bytes of `/dev/dri/card`.
pub open spec fn card_path_prefix() -> Seq<u8> {
    seq![47u8, 100, 101, 118, 47, 100, 114, 105, 47, 99, 97, 114, 100]
}

/// The path of DRM card node `card_index`, zero-padded, and its length.
pub fn device_path(card_index: u32) -> (path: ([u8; 32], usize))
    ensures
        path.1 == card_path_prefix().len() + decimal(card_index as nat).len(),
        path.0@.take(path.1 as int) == card_path_prefix() + decimal(card_index as nat),
        forall|i: int| path.1 <= i < 32 ==> path.0@[i] == 0,
{
    let prefix: Vec<u8> = vec![47u8, 100, 101, 118, 47, 100, 114, 105, 47, 99, 97, 114, 100];
    assert(prefix@ =~= card_path_prefix());
    indexed_path(prefix.as_slice(), card_index)
}

/// Why opening card `card_index` failed, from the system error it reported, if any: an absent
/// node is its own error, and a failure without an error number is an input/output error.
pub fn open_failure(card_index: u32, errno: Option<i32>) -> (error: DrmError)
    ensures
        errno == Some(2i32) ==> (error matches DrmError::DeviceAbsent { card_index: c } && c
            == card_index),
        errno is Some && errno->0 != 2 ==> (error matches DrmError::OpenDevice { errno: e }
            && e == errno->0),
        errno is None ==> (error matches DrmError::OpenDevice { errno: e2 } && e2 == 5),
{
    match errno {
        Some(e) => if e == crate::errno::no_such_file() {
            DrmError::DeviceAbsent { card_index }
        } else {
            DrmError::OpenDevice { errno: e }
        },
        None => DrmError::OpenDevice { errno: crate::errno::input_output_error() },
    }
}

/// Whether the device speaks atomic modesetting, from its answer to the request to enable it:
/// agreement means yes, "not supported" or "invalid" means no, and any other error is a
/// failure. Which number means "not supported" depends on the target, so for those numbers
/// either answer may come back.
pub fn atomic_client_support(answer: Result<(), i32>) -> (supported: Result<bool, DrmError>)
    ensures
        answer is Ok ==> supported == Ok::<bool, DrmError>(true),
        answer == Err::<(), i32>(22) ==> supported == Ok::<bool, DrmError>(false),
        answer is Err && answer->Err_0 != 22 && answer->Err_0 != 45 && answer->Err_0 != 95
            && answer->Err_0 != 122 ==> (supported matches Err(
            DrmError::EnableAtomicClient { errno: e },
        ) && e == answer->Err_0),
        answer is Err && (answer->Err_0 == 45 || answer->Err_0 == 95 || answer->Err_0 == 122) ==> (
        supported == Ok::<bool, DrmError>(false) || (supported matches Err(
            DrmError::EnableAtomicClient { errno: e },
        ) && e == answer->Err_0)),
{
    match answer {
        Ok(()) => Ok(true),
        Err(errno) => if errno == crate::errno::not_supported() || errno
            == crate::errno::invalid_argument() {
            Ok(false)
        } else {
            Err(DrmError::EnableAtomicClient { errno })
        },
    }
}

/// What a device was opened to drive: a connector, one of its modes, and a CRTC.
#[derive(Clone, Copy, Debug, PartialEq, Eq, Structural)]
pub struct OutputSelection {
    pub connector_index: usize,
    pub mode_index: usize,
    pub crtc_id: u32,
}

/// What a configuration selects among a device's resources: the connector, then its mode, then
/// the CRTC, stopping at the first that cannot be had.
pub open spec fn output_choice(resources: ResourceSnapshot, config: DeviceConfig) -> Result<
    OutputSelection,
    DrmError,
> {
    match connector_choice(resources.connectors@, config.connector_id) {
        Err(error) => Err(error),
        Ok(connector_index) => {
            let connector = resources.connectors@[connector_index as int];
            match mode_choice(connector.modes@, config.mode) {
                Err(error) => Err(error),
                Ok(mode_index) => match crtc_choice(resources, connector) {
                    Err(error) => Err(error),
                    Ok(crtc_id) => Ok(OutputSelection { connector_index, mode_index, crtc_id }),
                },
            }
        },
    }
}

/// Selects the connector, mode and CRTC a configuration asks for among a device's resources.
pub fn select_output(resources: &ResourceSnapshot, config: DeviceConfig) -> (selection: Result<
    OutputSelection,
    DrmError,
>)
    ensures
        selection == output_choice(*resources, config),
        selection matches Ok(s) ==> s.connector_index < resources.connectors@.len()
            && s.mode_index < resources.connectors@[s.connector_index as int].modes@.len(),
{
    let connector_index = match choose_connector(resources.connectors.as_slice(), config.connector_id) {
        Ok(index) => index,
        Err(error) => {
            return Err(error);
        },
    };
    let mode_index = match select_mode(
        resources.connectors[connector_index].modes.as_slice(),
        config.mode,
    ) {
        Ok(index) => index,
        Err(error) => {
            return Err(error);
        },
    };
    let crtc_id = match choose_crtc(resources, connector_index) {
        Ok(id) => id,
        Err(error) => {
            return Err(error);
        },
    };
    Ok(OutputSelection { connector_index, mode_index, crtc_id })
}

/// Whether a device can allocate dumb buffers and speaks atomic modesetting.
#[derive(Clone, Copy, Debug, PartialEq, Eq, Structural)]
pub struct DrmCapabilities {
    dumb_buffers: bool,
    atomic_commit: bool,
}

impl DrmCapabilities {
    pub closed spec fn has_dumb_buffers(self) -> bool {
        self.dumb_buffers
    }

    pub closed spec fn has_atomic_commit(self) -> bool {
        self.atomic_commit
    }

    pub fn new(dumb_buffers: bool, atomic_commit: bool) -> (capabilities: DrmCapabilities)
        ensures
            capabilities.has_dumb_buffers() == dumb_buffers,
            capabilities.has_atomic_commit() == atomic_commit,
    {
        DrmCapabilities { dumb_buffers, atomic_commit }
    }

    pub fn dumb_buffers(self) -> (supported: bool)
        ensures
            supported == self.has_dumb_buffers(),
    {
        self.dumb_buffers
    }

    pub fn atomic_commit(self) -> (supported: bool)
        ensures
            supported == self.has_atomic_commit(),
    {
        self.atomic_commit
    }
}


/// Whether a listing the kernel filled fits the arrays it was given: each count it reports now
/// is no larger than the room that was allocated for it after the first query. When one grew
/// between the two queries the listing is incomplete and has to be asked for again.
pub fn listing_fits(reported: &[u32], allocated: &[usize]) -> (fits: bool)
    requires
        reported@.len() == allocated@.len(),
    ensures
        fits == forall|i: int| 0 <= i < reported@.len() ==> reported@[i] <= allocated@[i],
{
    let mut k: usize = 0;
    while k < reported.len()
        invariant
            k <= reported@.len(),
            reported@.len() == allocated@.len(),
            forall|i: int| 0 <= i < k ==> reported@[i] <= allocated@[i],
        decreases reported@.len() - k,
    {
        if reported[k] as usize > allocated[k] {
            return false;
        }
        k = k + 1;
    }
    true
}

} // verus!
