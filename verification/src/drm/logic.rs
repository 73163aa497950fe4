//! Mode selection, scanout buffer geometry, and the pixel formats frames are scanned out in.

use vstd::prelude::*;

use crate::drm::error::DrmError;

verus! {

/// The mode-type bit marking the mode a connector prefers.
pub const MODE_TYPE_PREFERRED: u32 = 8;

/// A four-character code, its first character in the lowest byte.
pub open spec fn fourcc_code(a: u8, b: u8, c: u8, d: u8) -> int {
    a + b * 0x100 + c * 0x1_0000 + d * 0x100_0000
}

/// Packs four characters into a code, the first in the lowest byte.
pub fn fourcc(a: u8, b: u8, c: u8, d: u8) -> (code: u32)
    ensures
        code == fourcc_code(a, b, c, d),
{
    let (wa, wb, wc, wd): (u32, u32, u32, u32) = (a as u32, b as u32, c as u32, d as u32);
    let code: u32 = wa | (wb << 8u32) | (wc << 16u32) | (wd << 24u32);
    assert(code == wa + wb * 0x100 + wc * 0x1_0000 + wd * 0x100_0000) by (bit_vector)
        requires
            wa <= 0xff,
            wb <= 0xff,
            wc <= 0xff,
            wd <= 0xff,
            code == wa | (wb << 8u32) | (wc << 16u32) | (wd << 24u32),
    ;
    code
}

/// The pixel formats a frame is scanned out in.
#[derive(Clone, Copy, Debug, PartialEq, Eq, Structural)]
pub enum DrmFormat {
    /// One byte per pixel, `C8`.
    C8,
    /// Two bytes per pixel, `RG16`.
    Rgb565,
    /// Three bytes per pixel, `RG24`.
    Rgb888,
    /// Four bytes per pixel with the top byte unused, `XR24`.
    Xrgb8888,
}

/// The code the kernel knows a format by.
pub open spec fn format_code(format: DrmFormat) -> int {
    match format {
        DrmFormat::C8 => fourcc_code(0x43, 0x38, 0x20, 0x20),
        DrmFormat::Rgb565 => fourcc_code(0x52, 0x47, 0x31, 0x36),
        DrmFormat::Rgb888 => fourcc_code(0x52, 0x47, 0x32, 0x34),
        DrmFormat::Xrgb8888 => fourcc_code(0x58, 0x52, 0x32, 0x34),
    }
}

impl DrmFormat {
    pub fn fourcc(self) -> (code: u32)
        ensures
            code == format_code(self),
    {
        match self {
            DrmFormat::C8 => fourcc(0x43, 0x38, 0x20, 0x20),
            DrmFormat::Rgb565 => fourcc(0x52, 0x47, 0x31, 0x36),
            DrmFormat::Rgb888 => fourcc(0x52, 0x47, 0x32, 0x34),
            DrmFormat::Xrgb8888 => fourcc(0x58, 0x52, 0x32, 0x34),
        }
    }
}

/// A display mode a connector offers.
#[derive(Clone, Copy, Debug, PartialEq, Eq, Structural)]
pub struct Mode {
    pub width: u16,
    pub height: u16,
    pub refresh_hz: u32,
    pub mode_type: u32,
}

/// The connector prefers this mode.
pub open spec fn is_preferred(mode: Mode) -> bool {
    mode.mode_type & MODE_TYPE_PREFERRED != 0
}

impl Mode {
    pub fn preferred(self) -> (preferred: bool)
        ensures
            preferred == is_preferred(self),
    {
        self.mode_type & MODE_TYPE_PREFERRED != 0
    }
}

/// Which of a connector's modes to drive it in.
#[derive(Clone, Copy, Debug, Default, PartialEq, Eq, Structural)]
pub enum ModeSelection {
    /// The mode the connector prefers.
    #[default]
    Preferred,
    /// Exactly this size and refresh.
    Exact { width: u16, height: u16, refresh_hz: u32 },
}

/// The bytes one row of pixels holds, and the bytes the whole buffer spans.
#[derive(Clone, Copy, Debug, PartialEq, Eq, Structural)]
pub struct BufferGeometry {
    pub row_bytes: u64,
    pub size: u64,
}

/// A mode is the one a selection asks for.
pub open spec fn selects(selection: ModeSelection, mode: Mode) -> bool {
    match selection {
        ModeSelection::Preferred => is_preferred(mode),
        ModeSelection::Exact { width, height, refresh_hz } => mode.width == width && mode.height
            == height && mode.refresh_hz == refresh_hz,
    }
}

/// The first mode, from position `from` on, that the selection asks for.
pub open spec fn first_selected(modes: Seq<Mode>, selection: ModeSelection, from: int) -> Option<
    int,
>
    decreases modes.len() - from,
{
    if from < 0 || from >= modes.len() {
        None
    } else if selects(selection, modes[from]) {
        Some(from)
    } else {
        first_selected(modes, selection, from + 1)
    }
}

/// The mode a selection picks among a connector's modes: the first it asks for. A connector
/// with no modes, one with no preferred mode, and one without the requested mode are each
/// their own error.
pub open spec fn mode_choice(modes: Seq<Mode>, selection: ModeSelection) -> Result<usize, DrmError> {
    if modes.len() == 0 {
        Err(DrmError::NoModes)
    } else {
        match first_selected(modes, selection, 0) {
            Some(index) => Ok(index as usize),
            None => match selection {
                ModeSelection::Preferred => Err(DrmError::NoPreferredMode),
                ModeSelection::Exact { .. } => Err(DrmError::RequestedModeUnavailable),
            },
        }
    }
}

proof fn lemma_first_selected_bounds(modes: Seq<Mode>, selection: ModeSelection, from: int)
    requires
        0 <= from,
    ensures
        first_selected(modes, selection, from) matches Some(i) ==> from <= i < modes.len()
            && selects(selection, modes[i]),
    decreases modes.len() - from,
{
    if from < modes.len() && !selects(selection, modes[from]) {
        lemma_first_selected_bounds(modes, selection, from + 1);
    }
}

/// Picks a mode: the first the selection asks for.
pub fn select_mode(modes: &[Mode], selection: ModeSelection) -> (index: Result<usize, DrmError>)
    ensures
        index == mode_choice(modes@, selection),
        index matches Ok(i) ==> i < modes@.len() && selects(selection, modes@[i as int]),
{
    proof {
        lemma_first_selected_bounds(modes@, selection, 0);
    }
    if modes.len() == 0 {
        return Err(DrmError::NoModes);
    }
    let mut i: usize = 0;
    while i < modes.len()
        invariant
            i <= modes@.len(),
            modes@.len() > 0,
            first_selected(modes@, selection, 0) == first_selected(modes@, selection, i as int),
        decreases modes@.len() - i,
    {
        let mode = modes[i];
        let matched = match selection {
            ModeSelection::Preferred => mode.preferred(),
            ModeSelection::Exact { width, height, refresh_hz } => mode.width == width && mode.height
                == height && mode.refresh_hz == refresh_hz,
        };
        if matched {
            return Ok(i);
        }
        i = i + 1;
    }
    match selection {
        ModeSelection::Preferred => Err(DrmError::NoPreferredMode),
        ModeSelection::Exact { .. } => Err(DrmError::RequestedModeUnavailable),
    }
}

/// An exact selection picks a mode of exactly the requested width, height and refresh rate, the
/// first such mode the connector lists; it fails only when the connector lists none, and then
/// says the requested mode is unavailable (or that there are no modes at all).
pub proof fn an_exact_selection_picks_the_first_mode_it_names(
    modes: Seq<Mode>,
    width: u16,
    height: u16,
    refresh_hz: u32,
)
    requires
        modes.len() <= usize::MAX,
    ensures
        mode_choice(modes, ModeSelection::Exact { width, height, refresh_hz }) matches Ok(i) ==> {
            &&& i < modes.len()
            &&& modes[i as int].width == width
            &&& modes[i as int].height == height
            &&& modes[i as int].refresh_hz == refresh_hz
            &&& forall|j: int|
                0 <= j < i ==> !(#[trigger] modes[j].width == width && modes[j].height == height
                    && modes[j].refresh_hz == refresh_hz)
        },
        (exists|j: int|
            0 <= j < modes.len() && #[trigger] modes[j].width == width && modes[j].height == height
                && modes[j].refresh_hz == refresh_hz) ==> mode_choice(
            modes,
            ModeSelection::Exact { width, height, refresh_hz },
        ) is Ok,
        modes.len() == 0 ==> mode_choice(modes, ModeSelection::Exact { width, height, refresh_hz })
            == Err::<usize, DrmError>(DrmError::NoModes),
        modes.len() > 0 && !(exists|j: int|
            0 <= j < modes.len() && #[trigger] modes[j].width == width && modes[j].height == height
                && modes[j].refresh_hz == refresh_hz) ==> mode_choice(
            modes,
            ModeSelection::Exact { width, height, refresh_hz },
        ) == Err::<usize, DrmError>(DrmError::RequestedModeUnavailable),
{
    let selection = ModeSelection::Exact { width, height, refresh_hz };
    lemma_first_selected_is_first(modes, selection, 0);
}

/// The preferred selection picks the first mode the connector marks preferred, and fails only
/// when it marks none.
pub proof fn a_preferred_selection_picks_the_first_preferred_mode(modes: Seq<Mode>)
    requires
        modes.len() <= usize::MAX,
    ensures
        mode_choice(modes, ModeSelection::Preferred) matches Ok(i) ==> {
            &&& i < modes.len()
            &&& modes[i as int].mode_type & MODE_TYPE_PREFERRED != 0
            &&& forall|j: int| 0 <= j < i ==> #[trigger] modes[j].mode_type & MODE_TYPE_PREFERRED == 0
        },
        modes.len() > 0 && (forall|j: int|
            0 <= j < modes.len() ==> #[trigger] modes[j].mode_type & MODE_TYPE_PREFERRED == 0)
            ==> mode_choice(modes, ModeSelection::Preferred) == Err::<usize, DrmError>(
            DrmError::NoPreferredMode,
        ),
        (exists|j: int| 0 <= j < modes.len() && #[trigger] modes[j].mode_type & MODE_TYPE_PREFERRED != 0)
            ==> mode_choice(modes, ModeSelection::Preferred) is Ok,
{
    lemma_first_selected_is_first(modes, ModeSelection::Preferred, 0);
}

/// `first_selected` finds the first selected mode from `from` on, and finds one whenever one
/// exists there.
proof fn lemma_first_selected_is_first(modes: Seq<Mode>, selection: ModeSelection, from: int)
    requires
        0 <= from,
    ensures
        first_selected(modes, selection, from) matches Some(i) ==> from <= i < modes.len()
            && selects(selection, modes[i]) && forall|j: int|
            from <= j < i ==> !selects(selection, #[trigger] modes[j]),
        first_selected(modes, selection, from) is None ==> forall|j: int|
            from <= j < modes.len() ==> !selects(selection, #[trigger] modes[j]),
    decreases modes.len() - from,
{
    if from < modes.len() && !selects(selection, modes[from]) {
        lemma_first_selected_is_first(modes, selection, from + 1);
    }
}

/// Validates a dumb buffer the kernel allocated against the mode it is for.
///
/// The rows must fit the pitch, the buffer must hold every row at that pitch, and its size must
/// be addressable.
pub fn buffer_geometry(width: u32, height: u32, bytes_per_pixel: u8, pitch: u32, buffer_size: u64) -> (geometry: Result<BufferGeometry, DrmError>)
    ensures
        width == 0 || height == 0 ==> geometry matches Err(DrmError::ZeroDimension),
        width != 0 && height != 0 && pitch < width * bytes_per_pixel ==> (geometry matches Err(
            DrmError::PitchTooSmall { pitch: p, required: r },
        ) && p == pitch && r == width * bytes_per_pixel),
        width != 0 && height != 0 && pitch >= width * bytes_per_pixel && buffer_size < pitch
            * height ==> (geometry matches Err(DrmError::BufferTooSmall { size: s, required: r })
            && s == buffer_size && r == pitch * height),
        width != 0 && height != 0 && pitch >= width * bytes_per_pixel && buffer_size >= pitch
            * height && pitch * height > isize::MAX ==> geometry matches Err(
            DrmError::ArithmeticOverflow,
        ),
        width != 0 && height != 0 && pitch >= width * bytes_per_pixel && buffer_size >= pitch
            * height && pitch * height <= isize::MAX ==> geometry == Ok::<BufferGeometry, DrmError>(
            BufferGeometry {
                row_bytes: (width * bytes_per_pixel) as u64,
                size: (pitch * height) as u64,
            },
        ),
{
    if width == 0 || height == 0 {
        return Err(DrmError::ZeroDimension);
    }
    proof {
        assert((width as u64) * (bytes_per_pixel as u64) <= 0xffff_ffff * 0xff) by (nonlinear_arith)
            requires
                width <= 0xffff_ffff,
                bytes_per_pixel <= 0xff,
        ;
        assert((pitch as u64) * (height as u64) <= 0xffff_ffff * 0xffff_ffff) by (nonlinear_arith)
            requires
                pitch <= 0xffff_ffff,
                height <= 0xffff_ffff,
        ;
    }
    let row_bytes: u64 = (width as u64) * (bytes_per_pixel as u64);
    if (pitch as u64) < row_bytes {
        return Err(DrmError::PitchTooSmall { pitch, required: row_bytes });
    }
    let size: u64 = (pitch as u64) * (height as u64);
    if buffer_size < size {
        return Err(DrmError::BufferTooSmall { size: buffer_size, required: size });
    }
    if size as u128 > usize::MAX as u128 {
        return Err(DrmError::ArithmeticOverflow);
    }
    if size as u128 > isize::MAX as u128 {
        return Err(DrmError::ArithmeticOverflow);
    }
    Ok(BufferGeometry { row_bytes, size })
}

/// The buffer to draw into while `scanning_index` is on screen: the other of the two.
pub fn next_buffer_index(scanning_index: usize) -> (next: usize)
    ensures
        next == scanning_index ^ 1,
        scanning_index == 0 ==> next == 1,
        scanning_index == 1 ==> next == 0,
{
    let next = scanning_index ^ 1;
    assert(scanning_index == 0 ==> next == 1) by (bit_vector)
        requires
            next == scanning_index ^ 1,
    ;
    assert(scanning_index == 1 ==> next == 0) by (bit_vector)
        requires
            next == scanning_index ^ 1,
    ;
    next
}

/// The format a frame of `bytes_per_pixel`-byte pixels is scanned out in.
pub open spec fn format_for(bytes_per_pixel: u8) -> Option<DrmFormat> {
    if bytes_per_pixel == 1 {
        Some(DrmFormat::C8)
    } else if bytes_per_pixel == 2 {
        Some(DrmFormat::Rgb565)
    } else if bytes_per_pixel == 3 {
        Some(DrmFormat::Rgb888)
    } else if bytes_per_pixel == 4 {
        Some(DrmFormat::Xrgb8888)
    } else {
        None
    }
}

/// The scanout format for a pixel layout of `bytes_per_pixel` bytes.
pub fn drm_format(bytes_per_pixel: u8) -> (format: Result<DrmFormat, DrmError>)
    ensures
        format_for(bytes_per_pixel) matches Some(f) ==> format == Ok::<DrmFormat, DrmError>(f),
        format_for(bytes_per_pixel) is None ==> (format matches Err(
            DrmError::UnsupportedPixelLayout(b),
        ) && b == bytes_per_pixel),
{
    if bytes_per_pixel == 1 {
        Ok(DrmFormat::C8)
    } else if bytes_per_pixel == 2 {
        Ok(DrmFormat::Rgb565)
    } else if bytes_per_pixel == 3 {
        Ok(DrmFormat::Rgb888)
    } else if bytes_per_pixel == 4 {
        Ok(DrmFormat::Xrgb8888)
    } else {
        Err(DrmError::UnsupportedPixelLayout(bytes_per_pixel))
    }
}

/// Drawing alternates between exactly two buffers: the buffer after the next is the one on
/// screen now, and the next is never the one on screen.
pub proof fn buffers_alternate(scanning_index: usize)
    ensures
        (scanning_index ^ 1) ^ 1 == scanning_index,
        scanning_index ^ 1 != scanning_index,
{
    assert((scanning_index ^ 1) ^ 1 == scanning_index) by (bit_vector);
    assert(scanning_index ^ 1 != scanning_index) by (bit_vector);
}

} // verus!
