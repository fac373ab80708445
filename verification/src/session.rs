//! The user session: the identity it runs as, the seat resources it owns
//! and the evdev input model.

use vstd::prelude::*;
use crate::order::{TextKeyed, sort_by_key, sorted_by_key};
use crate::text::{chars_of, has_prefix_at};

verus! {

/// The identity a session process switches to.
#[derive(Clone, Debug, PartialEq, Eq)]
pub struct UserCredentials {
    pub uid: u32,
    pub gid: u32,
    pub username: String,
}

impl UserCredentials {
    pub fn new(uid: u32, gid: u32, username: String) -> (res: UserCredentials)
        ensures
            res.uid == uid,
            res.gid == gid,
            res.username@ == username@,
    {
        UserCredentials { uid, gid, username }
    }
}

#[derive(Debug)]
pub enum AuthenticationError {
    Io(String),
    UnknownUser(String),
    InvalidIdentity(String),
    Session(String),
}

/// The description of an `AuthenticationError`: a fixed phrase naming the
/// stage that failed, then the detail the error carries.
pub open spec fn authentication_error_text(e: AuthenticationError) -> Seq<char> {
    match e {
        AuthenticationError::Io(m) => "authentication I/O failed: "@ + m@,
        AuthenticationError::UnknownUser(u) => "authentication user is unknown: "@ + u@,
        AuthenticationError::InvalidIdentity(d) => "authentication identity is invalid: "@ + d@,
        AuthenticationError::Session(m) => "session transition failed: "@ + m@,
    }
}

impl AuthenticationError {
    pub fn message(&self) -> (res: String)
        ensures
            res@ == authentication_error_text(*self),
    {
        match self {
            AuthenticationError::Io(e) => {
                let mut s = String::from_str("authentication I/O failed: ");
                s.append(e.as_str());
                s
            },
            AuthenticationError::UnknownUser(u) => {
                let mut s = String::from_str("authentication user is unknown: ");
                s.append(u.as_str());
                s
            },
            AuthenticationError::InvalidIdentity(d) => {
                let mut s = String::from_str("authentication identity is invalid: ");
                s.append(d.as_str());
                s
            },
            AuthenticationError::Session(e) => {
                let mut s = String::from_str("session transition failed: ");
                s.append(e.as_str());
                s
            },
        }
    }
}

// ---------------------------------------------------------------------------
// Input
// ---------------------------------------------------------------------------

#[derive(Clone, Copy, Debug, PartialEq, Eq, Structural)]
pub enum InputDeviceKind {
    Keyboard,
    Pointer,
    Other,
}

/// An evdev device of the seat.
#[derive(Clone, Debug, PartialEq, Eq)]
pub struct InputDevice {
    pub event_node: String,
    pub sysfs_path: String,
    pub name: String,
    pub kind: InputDeviceKind,
}

impl TextKeyed for InputDevice {
    open spec fn key_view(&self) -> Seq<char> {
        self.event_node@
    }

    fn key(&self) -> (res: &str) {
        self.event_node.as_str()
    }
}

/// One evdev `input_event` record (64-bit layout).
#[derive(Clone, Copy, Debug, Default, PartialEq, Eq, Structural)]
pub struct InputEvent {
    pub sec: i64,
    pub usec: i64,
    pub event_type: u16,
    pub code: u16,
    pub value: i32,
}

pub const EVENT_SIZE: usize = 24;

/// The little-endian unsigned value of `b[off..off + n]`.
pub open spec fn le_at(b: Seq<u8>, off: int, n: int) -> nat {
    crate::bytes::le_field(b, off, n)
}

impl InputEvent {
    pub const KEY: u16 = 1;
    pub const REL: u16 = 2;
    pub const ABS: u16 = 3;
    pub const SYN: u16 = 0;

    /// Decodes one 24-byte record (little-endian, as on the x86_64 and
    /// aarch64 targets Luna runs on); any other length is refused.
    pub fn decode(bytes: &[u8]) -> (res: Option<InputEvent>)
        ensures
            bytes@.len() != EVENT_SIZE ==> res is None,
            bytes@.len() == EVENT_SIZE ==> (res matches Some(e) && e.sec as int == (if le_at(bytes@, 0, 8) < 0x8000_0000_0000_0000 {
                le_at(bytes@, 0, 8) as int
            } else {
                le_at(bytes@, 0, 8) - 0x1_0000_0000_0000_0000
            }) && e.usec as int == (if le_at(bytes@, 8, 8) < 0x8000_0000_0000_0000 {
                le_at(bytes@, 8, 8) as int
            } else {
                le_at(bytes@, 8, 8) - 0x1_0000_0000_0000_0000
            }) && e.event_type as nat == le_at(bytes@, 16, 2) && e.code as nat == le_at(bytes@, 18, 2)
                && e.value as int == (if le_at(bytes@, 20, 4) < 0x8000_0000 {
                le_at(bytes@, 20, 4) as int
            } else {
                le_at(bytes@, 20, 4) - 0x1_0000_0000
            })),
    {
        if bytes.len() != EVENT_SIZE {
            return None;
        }
        proof {
            crate::bytes::lemma_pow256_values();
            crate::bytes::lemma_le_value_bound(bytes@.subrange(16, 18));
            crate::bytes::lemma_le_value_bound(bytes@.subrange(18, 20));
        }
        let sec = signed64(crate::bytes::read_le(bytes, 0, 8));
        let usec = signed64(crate::bytes::read_le(bytes, 8, 8));
        let event_type = crate::bytes::read_le(bytes, 16, 2) as u16;
        let code = crate::bytes::read_le(bytes, 18, 2) as u16;
        let raw_value = crate::bytes::read_le(bytes, 20, 4);
        proof {
            crate::bytes::lemma_le_value_bound(bytes@.subrange(20, 24));
        }
        let value = signed32(raw_value as u32);
        Some(InputEvent { sec, usec, event_type, code, value })
    }
}

/// Two's-complement reading of a 64-bit pattern.
fn signed64(v: u64) -> (res: i64)
    ensures
        res as int == (if v < 0x8000_0000_0000_0000 {
            v as int
        } else {
            v - 0x1_0000_0000_0000_0000
        }),
{
    if v < 0x8000_0000_0000_0000 {
        v as i64
    } else {
        let magnitude: u64 = 0xffff_ffff_ffff_ffff - v;
        let m = magnitude as i64;
        -m - 1
    }
}

/// Two's-complement reading of a 32-bit pattern.
fn signed32(v: u32) -> (res: i32)
    ensures
        res as int == (if v < 0x8000_0000 {
            v as int
        } else {
            v - 0x1_0000_0000
        }),
{
    if v < 0x8000_0000 {
        v as i32
    } else {
        let magnitude: u32 = 0xffff_ffff - v;
        let m = magnitude as i32;
        -m - 1
    }
}

/// Whether bit `bit` is set in a sysfs capability bitmap, whose words are
/// listed most significant first.
pub open spec fn capability_bit(words: Seq<u64>, bit: nat) -> bool {
    let word = bit / 64;
    if word + 1 > words.len() {
        false
    } else {
        (words[words.len() - (word + 1)] >> ((bit % 64) as u64)) & 1 == 1
    }
}

pub fn bit_is_set(words: &[u64], bit: usize) -> (res: bool)
    ensures
        res == capability_bit(words@, bit as nat),
{
    let word = bit / 64;
    let offset = (bit % 64) as u64;
    if word + 1 > words.len() {
        return false;
    }
    let w = words[words.len() - (word + 1)];
    (w >> offset) & 1 == 1
}

/// Device role from its capabilities: alphabetic keys without relative
/// motion make a keyboard; a mouse button, relative motion or any absolute
/// axis make a pointer; anything else is other.
pub open spec fn classify_spec(key: Seq<u64>, rel: Seq<u64>, abs: Seq<u64>) -> InputDeviceKind {
    let has_key = capability_bit(key, 30);
    let has_button = capability_bit(key, 272);
    let has_rel = capability_bit(rel, 0) || capability_bit(rel, 1);
    let has_abs = exists|i: int| 0 <= i < abs.len() && abs[i] != 0;
    if has_key && !has_rel {
        InputDeviceKind::Keyboard
    } else if has_button || has_rel || has_abs {
        InputDeviceKind::Pointer
    } else {
        InputDeviceKind::Other
    }
}

/// Classifies a device from its `key`, `rel` and `abs` capability words.
pub fn classify_capabilities(key: &[u64], rel: &[u64], abs: &[u64]) -> (res: InputDeviceKind)
    ensures
        res == classify_spec(key@, rel@, abs@),
{
    let has_key = bit_is_set(key, 30);
    let has_button = bit_is_set(key, 272);
    let has_rel = bit_is_set(rel, 0) || bit_is_set(rel, 1);
    let mut has_abs = false;
    let mut i: usize = 0;
    while i < abs.len()
        invariant
            i <= abs@.len(),
            has_abs == exists|j: int| 0 <= j < i && abs@[j] != 0,
        decreases abs@.len() - i,
    {
        if abs[i] != 0 {
            has_abs = true;
        }
        i = i + 1;
    }
    if has_key && !has_rel {
        InputDeviceKind::Keyboard
    } else if has_button || has_rel || has_abs {
        InputDeviceKind::Pointer
    } else {
        InputDeviceKind::Other
    }
}

/// The discovered input devices, ordered by event node.
#[derive(Debug)]
pub struct InputBackend {
    devices: Vec<InputDevice>,
}

impl InputBackend {
    pub closed spec fn spec_devices(&self) -> Seq<InputDevice> {
        self.devices@
    }

    /// A backend over `devices`, ordered by event node.
    pub fn from_devices(devices: Vec<InputDevice>) -> (res: InputBackend)
        ensures
            sorted_by_key(res.spec_devices()),
            res.spec_devices().to_multiset() == devices@.to_multiset(),
    {
        InputBackend { devices: sort_by_key(devices) }
    }

    pub fn devices(&self) -> (res: &[InputDevice])
        ensures
            res@ == self.spec_devices(),
    {
        self.devices.as_slice()
    }
}

// ---------------------------------------------------------------------------
// Seat
// ---------------------------------------------------------------------------

/// A DRM device node of the seat.
#[derive(Clone, Debug, PartialEq, Eq)]
pub struct GraphicsDevice {
    pub node: String,
    pub sysfs_path: Option<String>,
}

impl TextKeyed for GraphicsDevice {
    open spec fn key_view(&self) -> Seq<char> {
        self.node@
    }

    fn key(&self) -> (res: &str) {
        self.node.as_str()
    }
}

pub open spec fn card_prefix() -> Seq<char> {
    seq!['c', 'a', 'r', 'd']
}

/// `/dev/dri` entries that are primary cards: `card*` without a `-`
/// (connector entries such as `card0-HDMI-A-1` are not devices).
pub open spec fn is_card_entry(name: Seq<char>) -> bool {
    name.len() >= 4 && name.subrange(0, 4) == card_prefix() && !name.contains('-')
}

pub fn card_entry(name: &str) -> (res: bool)
    ensures
        res == is_card_entry(name@),
{
    let chars = chars_of(name);
    let prefix = chars_of("card");
    proof {
        reveal_strlit("card");
        assert("card"@ =~= card_prefix());
    }
    if !has_prefix_at(chars.as_slice(), 0, prefix.as_slice()) {
        return false;
    }
    let mut i: usize = 0;
    while i < chars.len()
        invariant
            chars@ == name@,
            i <= chars@.len(),
            forall|j: int| 0 <= j < i ==> chars@[j] != '-',
        decreases chars@.len() - i,
    {
        if chars[i] == '-' {
            assert(name@.contains('-'));
            return false;
        }
        i = i + 1;
    }
    true
}

/// What the seat owns.
#[derive(Clone, Debug, PartialEq, Eq)]
pub struct SeatResources {
    pub name: String,
    pub input: Vec<InputDevice>,
    pub graphics: Vec<GraphicsDevice>,
}

pub open spec fn seat0() -> Seq<char> {
    seq!['s', 'e', 'a', 't', '0']
}

#[derive(Debug)]
pub struct SeatController {
    resources: SeatResources,
}

impl SeatController {
    pub closed spec fn spec_resources(&self) -> SeatResources {
        self.resources
    }

    /// The default seat `seat0` over the discovered devices: input devices
    /// in the order given, graphics devices ordered by node.
    pub fn with_devices(input: Vec<InputDevice>, graphics: Vec<GraphicsDevice>) -> (res: SeatController)
        ensures
            res.spec_resources().name@ == seat0(),
            res.spec_resources().input@ == input@,
            sorted_by_key(res.spec_resources().graphics@),
            res.spec_resources().graphics@.to_multiset() == graphics@.to_multiset(),
    {
        let name = String::from_str("seat0");
        proof {
            reveal_strlit("seat0");
            assert("seat0"@ =~= seat0());
        }
        SeatController { resources: SeatResources { name, input, graphics: sort_by_key(graphics) } }
    }

    pub fn resources(&self) -> (res: &SeatResources)
        ensures
            *res == self.spec_resources(),
    {
        &self.resources
    }

    pub fn input_devices(&self) -> (res: &[InputDevice])
        ensures
            res@ == self.spec_resources().input@,
    {
        self.resources.input.as_slice()
    }

    pub fn graphics_devices(&self) -> (res: &[GraphicsDevice])
        ensures
            res@ == self.spec_resources().graphics@,
    {
        self.resources.graphics.as_slice()
    }
}

} // verus!
