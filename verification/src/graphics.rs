//! DRM display model: what a probe of a DRM device reports, the choice of
//! the display target, and filling a mapped dumb buffer.

use vstd::prelude::*;

verus! {

/// The ioctl type of the DRM interface (`'d'`).
pub const DRM_IOCTL_BASE: u64 = 0x64;

/// The request number of a DRM ioctl that reads and writes a `size`-byte
/// argument: direction (read|write) in bits 30..32, the size in bits
/// 16..30, the type in bits 8..16 and the number in bits 0..8, as Linux's
/// `_IOWR` lays them out.
pub fn drm_iowr(number: u64, size: u64) -> (res: u64)
    ensures
        res == ((3u64 << 30u64) | (DRM_IOCTL_BASE << 8u64) | number | (size << 16u64)),
        number < 0x100 && size < 0x4000 ==> res == 0xC000_0000u64 + size * 0x10000 + DRM_IOCTL_BASE * 0x100 + number,
{
    let res = (3u64 << 30u64) | (DRM_IOCTL_BASE << 8u64) | number | (size << 16u64);
    assert(number < 0x100 && size < 0x4000 ==> ((3u64 << 30u64) | (0x64u64 << 8u64) | number | (size << 16u64))
        == 0xC000_0000u64 + size * 0x10000 + 0x64u64 * 0x100 + number) by (bit_vector);
    res
}

/// The request number of a DRM ioctl without an argument: the type in bits
/// 8..16 and the number in bits 0..8, as Linux's `_IO` lays them out.
pub fn drm_io(number: u64) -> (res: u64)
    ensures
        res == ((DRM_IOCTL_BASE << 8u64) | number),
        number < 0x100 ==> res == DRM_IOCTL_BASE * 0x100 + number,
{
    let res = (DRM_IOCTL_BASE << 8u64) | number;
    assert(number < 0x100 ==> ((0x64u64 << 8u64) | number) == 0x64u64 * 0x100 + number) by (bit_vector);
    res
}

#[derive(Clone, Debug, PartialEq, Eq)]
pub struct DrmResources {
    pub framebuffer_count: usize,
    pub crtc_count: usize,
    pub connector_count: usize,
    pub encoder_count: usize,
    pub min_width: u32,
    pub max_width: u32,
    pub min_height: u32,
    pub max_height: u32,
    pub connector_ids: Vec<u32>,
    pub crtc_ids: Vec<u32>,
    pub encoder_ids: Vec<u32>,
    pub framebuffer_ids: Vec<u32>,
}

/// A display mode of a connector.
#[derive(Clone, Debug, PartialEq, Eq)]
pub struct DrmMode {
    pub name: String,
    pub width: u32,
    pub height: u32,
    pub refresh_hz: u32,
    pub preferred: bool,
}

pub ghost struct ModeView {
    pub name: Seq<char>,
    pub width: u32,
    pub height: u32,
    pub refresh_hz: u32,
    pub preferred: bool,
}

impl View for DrmMode {
    type V = ModeView;

    open spec fn view(&self) -> ModeView {
        ModeView {
            name: self.name@,
            width: self.width,
            height: self.height,
            refresh_hz: self.refresh_hz,
            preferred: self.preferred,
        }
    }
}

impl DrmMode {
    pub fn duplicate(&self) -> (res: DrmMode)
        ensures
            res@ == self@,
    {
        DrmMode {
            name: self.name.clone(),
            width: self.width,
            height: self.height,
            refresh_hz: self.refresh_hz,
            preferred: self.preferred,
        }
    }
}

#[derive(Clone, Debug, PartialEq, Eq)]
pub struct DrmConnector {
    pub id: u32,
    pub connected: bool,
    pub encoder_id: u32,
    pub encoders: Vec<u32>,
    pub modes: Vec<DrmMode>,
}

/// Where and how to scan out: a connector, a CRTC and a mode.
#[derive(Clone, Debug, PartialEq, Eq)]
pub struct DisplayTarget {
    pub connector_id: u32,
    pub crtc_id: u32,
    pub mode: DrmMode,
}

#[derive(Clone, Debug, PartialEq, Eq)]
pub struct DrmProbe {
    pub dumb_buffer: bool,
    pub resources: DrmResources,
    pub connectors: Vec<DrmConnector>,
}

/// A connector that can show something: connected, with at least one mode.
pub open spec fn usable(c: DrmConnector) -> bool {
    c.connected && c.modes@.len() > 0
}

/// Index of the first usable connector (`cs.len()` when none is).
pub open spec fn first_usable(cs: Seq<DrmConnector>) -> int
    decreases cs.len(),
{
    if cs.len() == 0 {
        0
    } else if usable(cs[0]) {
        0
    } else {
        1 + first_usable(cs.drop_first())
    }
}

/// Index of the first preferred mode (`ms.len()` when none is).
pub open spec fn first_preferred(ms: Seq<DrmMode>) -> int
    decreases ms.len(),
{
    if ms.len() == 0 {
        0
    } else if ms[0].preferred {
        0
    } else {
        1 + first_preferred(ms.drop_first())
    }
}

/// The mode used for a connector: its first preferred mode, else its first.
pub open spec fn chosen_mode(ms: Seq<DrmMode>) -> DrmMode {
    if first_preferred(ms) < ms.len() {
        ms[first_preferred(ms)]
    } else {
        ms[0]
    }
}

/// The display target of a probe: the first usable connector, with its
/// chosen mode; none when there is no usable connector or when that
/// connector names no encoder at all. The CRTC is left unassigned (0).
pub open spec fn probe_target(cs: Seq<DrmConnector>) -> Option<(u32, ModeView)> {
    let i = first_usable(cs);
    if i >= cs.len() {
        None
    } else if cs[i].encoder_id == 0 && cs[i].encoders@.len() == 0 {
        None
    } else {
        Some((cs[i].id, chosen_mode(cs[i].modes@)@))
    }
}

proof fn lemma_first_usable(cs: Seq<DrmConnector>, i: int)
    requires
        0 <= i <= cs.len(),
        forall|j: int| 0 <= j < i ==> !usable(cs[j]),
    ensures
        i < cs.len() && usable(cs[i]) ==> first_usable(cs) == i,
        i == cs.len() ==> first_usable(cs) == cs.len(),
    decreases i,
{
    if i > 0 {
        assert forall|j: int| 0 <= j < i - 1 implies !usable(cs.drop_first()[j]) by {
            assert(cs.drop_first()[j] == cs[j + 1]);
        }
        lemma_first_usable(cs.drop_first(), i - 1);
    }
}

proof fn lemma_first_preferred(ms: Seq<DrmMode>, i: int)
    requires
        0 <= i <= ms.len(),
        forall|j: int| 0 <= j < i ==> !ms[j].preferred,
    ensures
        i < ms.len() && ms[i].preferred ==> first_preferred(ms) == i,
        i == ms.len() ==> first_preferred(ms) == ms.len(),
    decreases i,
{
    if i > 0 {
        assert forall|j: int| 0 <= j < i - 1 implies !ms.drop_first()[j].preferred by {
            assert(ms.drop_first()[j] == ms[j + 1]);
        }
        lemma_first_preferred(ms.drop_first(), i - 1);
    }
}

fn choose_mode(modes: &Vec<DrmMode>) -> (res: DrmMode)
    requires
        modes@.len() > 0,
    ensures
        res@ == chosen_mode(modes@)@,
{
    let mut i: usize = 0;
    while i < modes.len()
        invariant
            i <= modes@.len(),
            forall|j: int| 0 <= j < i ==> !modes@[j].preferred,
        decreases modes@.len() - i,
    {
        if modes[i].preferred {
            proof {
                lemma_first_preferred(modes@, i as int);
            }
            return modes[i].duplicate();
        }
        i = i + 1;
    }
    proof {
        lemma_first_preferred(modes@, i as int);
    }
    modes[0].duplicate()
}

impl DrmProbe {
    /// The display target (see `probe_target`).
    pub fn display_target(&self) -> (res: Option<DisplayTarget>)
        ensures
            match probe_target(self.connectors@) {
                Some((id, mode)) => res matches Some(t) && t.connector_id == id && t.crtc_id == 0
                    && t.mode@ == mode,
                None => res is None,
            },
    {
        let mut i: usize = 0;
        while i < self.connectors.len()
            invariant
                i <= self.connectors@.len(),
                forall|j: int| 0 <= j < i ==> !usable(self.connectors@[j]),
            decreases self.connectors@.len() - i,
        {
            let connector = &self.connectors[i];
            if connector.connected && connector.modes.len() > 0 {
                proof {
                    lemma_first_usable(self.connectors@, i as int);
                }
                let mode = choose_mode(&connector.modes);
                if connector.encoder_id == 0 && connector.encoders.len() == 0 {
                    return None;
                }
                return Some(DisplayTarget { connector_id: connector.id, crtc_id: 0, mode });
            }
            i = i + 1;
        }
        proof {
            lemma_first_usable(self.connectors@, i as int);
        }
        None
    }
}

/// The CRTC for an encoder: its current CRTC when it has one, else the
/// first CRTC its `possible_crtcs` mask allows, else none (0).
pub open spec fn crtc_choice(encoder_crtc: u32, possible: u32, crtc_ids: Seq<u32>) -> u32 {
    if encoder_crtc != 0 {
        encoder_crtc
    } else {
        let i = first_allowed(possible, crtc_ids.len(), 0);
        if i < crtc_ids.len() {
            crtc_ids[i]
        } else {
            0
        }
    }
}

/// First index in `from..n` whose bit is set in `mask` (`n` when none).
pub open spec fn first_allowed(mask: u32, n: nat, from: nat) -> int
    decreases n - from,
{
    if from >= n {
        n as int
    } else if from < 32 && (mask >> (from as u32)) & 1 == 1 {
        from as int
    } else {
        first_allowed(mask, n, from + 1)
    }
}

/// Picks the CRTC for an encoder (see `crtc_choice`). At most 32 CRTCs can
/// be addressed by the mask.
pub fn crtc_for_encoder(encoder_crtc: u32, possible: u32, crtc_ids: &[u32]) -> (res: u32)
    requires
        crtc_ids@.len() <= 32,
    ensures
        res == crtc_choice(encoder_crtc, possible, crtc_ids@),
{
    if encoder_crtc != 0 {
        return encoder_crtc;
    }
    let n = crtc_ids.len();
    let mut i: usize = 0;
    while i < n
        invariant
            encoder_crtc == 0,
            n == crtc_ids@.len() <= 32,
            i <= n,
            first_allowed(possible, n as nat, 0) == first_allowed(possible, n as nat, i as nat),
        decreases n - i,
    {
        let bit = (possible >> (i as u32)) & 1 == 1;
        assert(first_allowed(possible, n as nat, i as nat) == if bit {
            i as int
        } else {
            first_allowed(possible, n as nat, (i + 1) as nat)
        });
        if bit {
            return crtc_ids[i];
        }
        i = i + 1;
    }
    assert(first_allowed(possible, n as nat, n as nat) == n);
    0
}

/// A DRM device node.
#[derive(Clone, Debug, PartialEq, Eq)]
pub struct DrmDevice {
    node: String,
}

impl DrmDevice {
    pub closed spec fn spec_node(&self) -> Seq<char> {
        self.node@
    }

    pub fn new(node: String) -> (res: DrmDevice)
        ensures
            res.spec_node() == node@,
    {
        DrmDevice { node }
    }

    pub fn node(&self) -> (res: &str)
        ensures
            res@ == self.spec_node(),
    {
        self.node.as_str()
    }
}

/// Byte `k` (0..4) of the little-endian encoding of `pixel`.
pub open spec fn pixel_byte(pixel: u32, k: int) -> u8 {
    if k == 0 {
        (pixel & 0xff) as u8
    } else if k == 1 {
        ((pixel >> 8) & 0xff) as u8
    } else if k == 2 {
        ((pixel >> 16) & 0xff) as u8
    } else {
        ((pixel >> 24) & 0xff) as u8
    }
}

/// Whether byte `i` of a buffer of `len` bytes with rows of `pitch` bytes is
/// inside a whole 4-byte pixel of a whole row.
pub open spec fn in_pixel(i: int, len: int, pitch: int) -> bool {
    (i / pitch + 1) * pitch <= len && i % pitch < (pitch / 4) * 4
}

/// Fills every whole 4-byte pixel of every whole row with `pixel`
/// (XRGB8888, little-endian); the tail bytes of a row and a partial last row
/// are left as they were.
pub fn fill_xrgb(buffer: &mut Vec<u8>, pitch: usize, pixel: u32)
    requires
        pitch > 0,
    ensures
        final(buffer)@.len() == old(buffer)@.len(),
        forall|i: int|
            0 <= i < old(buffer)@.len() ==> #[trigger] final(buffer)@[i] == if in_pixel(
                i,
                old(buffer)@.len() as int,
                pitch as int,
            ) {
                pixel_byte(pixel, (i % pitch as int) % 4)
            } else {
                old(buffer)@[i]
            },
{
    let len = buffer.len();
    let rows = len / pitch;
    let cols = (pitch / 4) * 4;
    let b0 = (pixel & 0xff) as u8;
    let b1 = ((pixel >> 8) & 0xff) as u8;
    let b2 = ((pixel >> 16) & 0xff) as u8;
    let b3 = ((pixel >> 24) & 0xff) as u8;
    assert(b0 == pixel_byte(pixel, 0) && b1 == pixel_byte(pixel, 1) && b2 == pixel_byte(pixel, 2)
        && b3 == pixel_byte(pixel, 3));
    let ghost original = buffer@;
    let mut row: usize = 0;
    while row < rows
        invariant
            len == original.len(),
            buffer@.len() == len,
            pitch > 0,
            rows == len / pitch,
            cols == (pitch / 4) * 4,
            row <= rows,
            b0 == pixel_byte(pixel, 0) && b1 == pixel_byte(pixel, 1) && b2 == pixel_byte(pixel, 2)
                && b3 == pixel_byte(pixel, 3),
            forall|i: int|
                0 <= i < len ==> #[trigger] buffer@[i] == if i / (pitch as int) < row && in_pixel(
                    i,
                    len as int,
                    pitch as int,
                ) {
                    pixel_byte(pixel, (i % pitch as int) % 4)
                } else {
                    original[i]
                },
        decreases rows - row,
    {
        proof {
            assert((row + 1) * pitch <= len && row * pitch + pitch <= len) by (nonlinear_arith)
                requires
                    row < rows,
                    rows == len / pitch,
                    pitch > 0,
            ;
            assert((pitch / 4) * 4 <= pitch) by (nonlinear_arith)
                requires
                    pitch > 0,
            ;
        }
        let base = row * pitch;
        let mut col: usize = 0;
        while col < cols
            invariant
                len == original.len(),
                buffer@.len() == len,
                pitch > 0,
                rows == len / pitch,
                cols == (pitch / 4) * 4,
                cols <= pitch,
                row < rows,
                base == row * pitch,
                base + pitch <= len,
                (row + 1) * pitch <= len,
                col <= cols,
                col % 4 == 0,
                b0 == pixel_byte(pixel, 0) && b1 == pixel_byte(pixel, 1) && b2 == pixel_byte(pixel, 2)
                    && b3 == pixel_byte(pixel, 3),
                forall|i: int|
                    0 <= i < len ==> #[trigger] buffer@[i] == if (i / (pitch as int) < row || (i
                        / (pitch as int) == row && i % (pitch as int) < col)) && in_pixel(
                        i,
                        len as int,
                        pitch as int,
                    ) {
                        pixel_byte(pixel, (i % pitch as int) % 4)
                    } else {
                        original[i]
                    },
            decreases cols - col,
        {
            let at = base + col;
            buffer.set(at, b0);
            buffer.set(at + 1, b1);
            buffer.set(at + 2, b2);
            buffer.set(at + 3, b3);
            proof {
                assert forall|i: int| 0 <= i < len implies #[trigger] buffer@[i] == if (i / (
                    pitch as int) < row || (i / (pitch as int) == row && i % (pitch as int) < col
                    + 4)) && in_pixel(i, len as int, pitch as int) {
                    pixel_byte(pixel, (i % pitch as int) % 4)
                } else {
                    original[i]
                } by {
                    lemma_div_mod_row(i, row as int, pitch as int, col as int, cols as int, len as int);
                }
            }
            col = col + 4;
        }
        proof {
            assert forall|i: int| 0 <= i < len implies #[trigger] buffer@[i] == if i / (
                pitch as int) < row + 1 && in_pixel(i, len as int, pitch as int) {
                pixel_byte(pixel, (i % pitch as int) % 4)
            } else {
                original[i]
            } by {
                lemma_row_done(i, row as int, pitch as int, col as int, cols as int, len as int);
            }
        }
        row = row + 1;
    }
    proof {
        assert forall|i: int| 0 <= i < len && in_pixel(i, len as int, pitch as int) implies i / (
            pitch as int) < rows by {
            lemma_rows_bound(i, pitch as int, len as int);
        }
    }
}

/// The pixels of a dumb buffer as mapped into memory: rows `pitch` bytes
/// apart.
pub struct MappedDumbBuffer {
    bytes: Vec<u8>,
    pitch: usize,
}

impl View for MappedDumbBuffer {
    type V = Seq<u8>;

    closed spec fn view(&self) -> Seq<u8> {
        self.bytes@
    }
}

impl MappedDumbBuffer {
    /// Bytes from the start of one row to the start of the next.
    pub closed spec fn spec_pitch(&self) -> usize {
        self.pitch
    }

    /// The buffer over `bytes`, rows `pitch` bytes apart.
    pub fn new(bytes: Vec<u8>, pitch: usize) -> (res: MappedDumbBuffer)
        ensures
            res@ == bytes@,
            res.spec_pitch() == pitch,
    {
        MappedDumbBuffer { bytes, pitch }
    }

    pub fn pitch(&self) -> (res: usize)
        ensures
            res == self.spec_pitch(),
    {
        self.pitch
    }

    /// The buffer's bytes.
    pub fn bytes(&self) -> (res: &[u8])
        ensures
            res@ == self@,
    {
        self.bytes.as_slice()
    }

    /// Paints every whole pixel of every whole row with `pixel` (see
    /// [`fill_xrgb`]).
    pub fn fill_xrgb(&mut self, pixel: u32)
        requires
            old(self).spec_pitch() > 0,
        ensures
            final(self).spec_pitch() == old(self).spec_pitch(),
            final(self)@.len() == old(self)@.len(),
            forall|i: int|
                0 <= i < old(self)@.len() ==> #[trigger] final(self)@[i] == if in_pixel(
                    i,
                    old(self)@.len() as int,
                    old(self).spec_pitch() as int,
                ) {
                    pixel_byte(pixel, (i % old(self).spec_pitch() as int) % 4)
                } else {
                    old(self)@[i]
                },
    {
        let pitch = self.pitch;
        fill_xrgb(&mut self.bytes, pitch, pixel);
    }
}

proof fn lemma_rows_bound(i: int, pitch: int, len: int)
    requires
        0 <= i < len,
        pitch > 0,
    ensures
        (i / pitch + 1) * pitch <= len ==> i / pitch < len / pitch,
{
    if (i / pitch + 1) * pitch <= len {
        assert(i / pitch < len / pitch) by (nonlinear_arith)
            requires
                (i / pitch + 1) * pitch <= len,
                pitch > 0,
        ;
    }
}

proof fn lemma_row_done(i: int, row: int, pitch: int, col: int, cols: int, len: int)
    requires
        0 <= i < len,
        pitch > 0,
        0 <= row,
        col >= cols,
        cols == (pitch / 4) * 4,
    ensures
        ((i / pitch < row || (i / pitch == row && i % pitch < col)) && in_pixel(i, len, pitch))
            == (i / pitch < row + 1 && in_pixel(i, len, pitch)),
{
}

proof fn lemma_div_mod_row(i: int, row: int, pitch: int, col: int, cols: int, len: int)
    requires
        0 <= i < len,
        pitch > 0,
        0 <= row,
        0 <= col,
        col + 4 <= cols,
        cols == (pitch / 4) * 4,
        col % 4 == 0,
        (row + 1) * pitch <= len,
    ensures
        row * pitch <= i < row * pitch + col ==> i / pitch == row && i % pitch == i - row * pitch,
        row * pitch + col <= i < row * pitch + col + 4 ==> i / pitch == row && i % pitch == i - row
            * pitch && in_pixel(i, len, pitch) && (i % pitch) % 4 == i - row * pitch - col,
        (i / pitch == row && i % pitch < col + 4 && !(i % pitch < col)) ==> row * pitch + col <= i
            < row * pitch + col + 4,
{
    assert(cols <= pitch) by (nonlinear_arith)
        requires
            cols == (pitch / 4) * 4,
            pitch > 0,
    ;
    if row * pitch <= i < row * pitch + pitch {
        assert(i / pitch == row && i % pitch == i - row * pitch) by (nonlinear_arith)
            requires
                row * pitch <= i < row * pitch + pitch,
                pitch > 0,
        ;
    }
    if i / pitch == row {
        assert(i == row * pitch + i % pitch) by (nonlinear_arith)
            requires
                i / pitch == row,
                pitch > 0,
        ;
    }
}

} // verus!
