//! Backend-neutral models of the desktop services: audio, Bluetooth,
//! networking and application management. Concrete backends implement the
//! traits; the models hold what Luna itself decides.

use vstd::prelude::*;
use crate::common::{BundleId, Version};

verus! {

// ---------------------------------------------------------------------------
// Audio
// ---------------------------------------------------------------------------

/// A volume level, always between 0 and 100.
#[derive(Clone, Copy, Debug, PartialEq, Eq, Structural)]
pub struct Volume {
    value: u8,
}

impl Volume {
    #[verifier::type_invariant]
    spec fn in_range(&self) -> bool {
        self.value <= 100
    }

    pub closed spec fn spec_get(self) -> u8 {
        self.value
    }

    /// Clamps `value` to at most 100.
    pub fn new(value: u8) -> (res: Volume)
        ensures
            res.spec_get() == if value <= 100 {
                value
            } else {
                100u8
            },
    {
        let v = if value <= 100 {
            value
        } else {
            100
        };
        Volume { value: v }
    }

    pub fn get(self) -> (res: u8)
        ensures
            res == self.spec_get(),
            res <= 100,
    {
        proof {
            use_type_invariant(&self);
        }
        self.value
    }
}

/// Constructing a volume clamps, and clamping twice changes nothing.
pub proof fn lemma_volume_clamp_idempotent(v: u8)
    ensures
        (if v <= 100 { v } else { 100u8 }) <= 100,
        (if (if v <= 100 { v } else { 100u8 }) <= 100 { (if v <= 100 { v } else { 100u8 }) } else { 100u8 }) == (if v <= 100 { v } else { 100u8 }),
{
}

#[derive(Clone, Copy, Debug, PartialEq, Eq, Structural)]
pub enum AudioState {
    Unavailable,
    Ready,
}

#[derive(Clone, Copy, Debug, PartialEq, Eq, Structural)]
pub enum AudioDirection {
    Input,
    Output,
}

#[derive(Clone, Debug)]
pub struct AudioEndpoint {
    id: String,
    name: String,
    direction: AudioDirection,
    volume: Volume,
    muted: bool,
}

impl AudioEndpoint {
    pub closed spec fn spec_id(&self) -> Seq<char> {
        self.id@
    }

    pub closed spec fn spec_name(&self) -> Seq<char> {
        self.name@
    }

    pub closed spec fn spec_direction(&self) -> AudioDirection {
        self.direction
    }

    pub closed spec fn spec_volume(&self) -> Volume {
        self.volume
    }

    pub closed spec fn spec_muted(&self) -> bool {
        self.muted
    }

    /// A new endpoint at full volume, not muted.
    pub fn new(id: String, name: String, direction: AudioDirection) -> (res: AudioEndpoint)
        ensures
            res.spec_id() == id@,
            res.spec_name() == name@,
            res.spec_direction() == direction,
            res.spec_volume().spec_get() == 100,
            !res.spec_muted(),
    {
        AudioEndpoint { id, name, direction, volume: Volume::new(100), muted: false }
    }

    pub fn id(&self) -> (res: &str)
        ensures
            res@ == self.spec_id(),
    {
        self.id.as_str()
    }

    pub fn name(&self) -> (res: &str)
        ensures
            res@ == self.spec_name(),
    {
        self.name.as_str()
    }

    pub fn direction(&self) -> (res: AudioDirection)
        ensures
            res == self.spec_direction(),
    {
        self.direction
    }

    pub fn volume(&self) -> (res: Volume)
        ensures
            res == self.spec_volume(),
    {
        self.volume
    }

    pub fn muted(&self) -> (res: bool)
        ensures
            res == self.spec_muted(),
    {
        self.muted
    }

    pub fn set_volume(&mut self, volume: Volume)
        ensures
            final(self).spec_volume() == volume,
            final(self).spec_id() == old(self).spec_id(),
            final(self).spec_name() == old(self).spec_name(),
            final(self).spec_direction() == old(self).spec_direction(),
            final(self).spec_muted() == old(self).spec_muted(),
    {
        self.volume = volume;
    }

    pub fn set_muted(&mut self, muted: bool)
        ensures
            final(self).spec_muted() == muted,
            final(self).spec_id() == old(self).spec_id(),
            final(self).spec_name() == old(self).spec_name(),
            final(self).spec_direction() == old(self).spec_direction(),
            final(self).spec_volume() == old(self).spec_volume(),
    {
        self.muted = muted;
    }
}

/// A concrete audio backend (ALSA, a compatibility server, ...).
pub trait AudioBackend {
    type Error;

    fn state(&self) -> Result<AudioState, Self::Error>;

    fn endpoints(&self) -> Result<Vec<AudioEndpoint>, Self::Error>;

    fn set_volume(&mut self, endpoint_id: &str, volume: Volume) -> Result<(), Self::Error>;

    fn set_muted(&mut self, endpoint_id: &str, muted: bool) -> Result<(), Self::Error>;
}

/// Policy-neutral facade over a concrete audio backend.
pub struct AudioService<B> {
    backend: B,
}

impl<B> AudioService<B> {
    pub closed spec fn spec_backend(&self) -> B {
        self.backend
    }

    pub fn new(backend: B) -> (res: AudioService<B>)
        ensures
            res.spec_backend() == backend,
    {
        AudioService { backend }
    }

    pub fn backend(&self) -> (res: &B)
        ensures
            *res == self.spec_backend(),
    {
        &self.backend
    }

    pub fn backend_mut(&mut self) -> (res: &mut B)
        ensures
            *res == old(self).spec_backend(),
            final(self).spec_backend() == *final(res),
    {
        &mut self.backend
    }

    pub fn into_backend(self) -> (res: B)
        ensures
            res == self.spec_backend(),
    {
        self.backend
    }
}

impl<B: AudioBackend> AudioService<B> {
    /// The backend's state, as the backend reports it.
    pub fn state(&self) -> Result<AudioState, B::Error> {
        self.backend.state()
    }

    /// The backend's endpoints, as the backend reports them.
    pub fn endpoints(&self) -> Result<Vec<AudioEndpoint>, B::Error> {
        self.backend.endpoints()
    }

    /// Forwards the volume change to the backend.
    pub fn set_volume(&mut self, endpoint_id: &str, volume: Volume) -> Result<(), B::Error> {
        self.backend.set_volume(endpoint_id, volume)
    }

    /// Forwards the mute change to the backend.
    pub fn set_muted(&mut self, endpoint_id: &str, muted: bool) -> Result<(), B::Error> {
        self.backend.set_muted(endpoint_id, muted)
    }
}

// ---------------------------------------------------------------------------
// Bluetooth
// ---------------------------------------------------------------------------

#[derive(Clone, Copy, Debug, PartialEq, Eq, Structural)]
pub enum BluetoothState {
    Disabled,
    Powered,
}

#[derive(Clone, Debug)]
pub struct BluetoothDevice {
    address: String,
    name: Option<String>,
    connected: bool,
}

impl BluetoothDevice {
    pub closed spec fn spec_address(&self) -> Seq<char> {
        self.address@
    }

    pub closed spec fn spec_name(&self) -> Option<Seq<char>> {
        match self.name {
            Some(n) => Some(n@),
            None => None,
        }
    }

    pub closed spec fn spec_connected(&self) -> bool {
        self.connected
    }

    /// A new, not connected device.
    pub fn new(address: String, name: Option<String>) -> (res: BluetoothDevice)
        ensures
            res.spec_address() == address@,
            res.spec_name() == (match name {
                Some(n) => Some(n@),
                None => None::<Seq<char>>,
            }),
            !res.spec_connected(),
    {
        BluetoothDevice { address, name, connected: false }
    }

    pub fn address(&self) -> (res: &str)
        ensures
            res@ == self.spec_address(),
    {
        self.address.as_str()
    }

    pub fn name(&self) -> (res: Option<&str>)
        ensures
            match res {
                Some(n) => self.spec_name() == Some(n@),
                None => self.spec_name() is None,
            },
    {
        match &self.name {
            Some(n) => Some(n.as_str()),
            None => None,
        }
    }

    pub fn connected(&self) -> (res: bool)
        ensures
            res == self.spec_connected(),
    {
        self.connected
    }

    pub fn set_connected(&mut self, connected: bool)
        ensures
            final(self).spec_connected() == connected,
            final(self).spec_address() == old(self).spec_address(),
            final(self).spec_name() == old(self).spec_name(),
    {
        self.connected = connected;
    }
}

/// A concrete Bluetooth stack.
pub trait BluetoothBackend {
    type Error;

    fn state(&self) -> Result<BluetoothState, Self::Error>;

    fn devices(&self) -> Result<Vec<BluetoothDevice>, Self::Error>;
}

// ---------------------------------------------------------------------------
// Network
// ---------------------------------------------------------------------------

#[derive(Clone, Copy, Debug, PartialEq, Eq, Structural)]
pub enum NetworkState {
    Offline,
    Connected,
}

/// A network device. It holds an address exactly while it is connected.
#[derive(Debug)]
pub struct NetworkDevice {
    name: String,
    address: Option<String>,
    state: NetworkState,
}

impl NetworkDevice {
    #[verifier::type_invariant]
    spec fn address_iff_connected(&self) -> bool {
        (self.state == NetworkState::Connected) == (self.address is Some)
    }

    pub closed spec fn spec_name(&self) -> Seq<char> {
        self.name@
    }

    pub closed spec fn spec_address(&self) -> Option<Seq<char>> {
        match self.address {
            Some(a) => Some(a@),
            None => None,
        }
    }

    pub closed spec fn spec_state(&self) -> NetworkState {
        self.state
    }

    /// A new, offline device without an address.
    pub fn new(name: String) -> (res: NetworkDevice)
        ensures
            res.spec_name() == name@,
            res.spec_address() is None,
            res.spec_state() == NetworkState::Offline,
    {
        NetworkDevice { name, address: None, state: NetworkState::Offline }
    }

    pub fn name(&self) -> (res: &str)
        ensures
            res@ == self.spec_name(),
    {
        self.name.as_str()
    }

    pub fn address(&self) -> (res: Option<&str>)
        ensures
            match res {
                Some(a) => self.spec_address() == Some(a@),
                None => self.spec_address() is None,
            },
            (res is Some) == (self.spec_state() == NetworkState::Connected),
    {
        proof {
            use_type_invariant(self);
        }
        match &self.address {
            Some(a) => Some(a.as_str()),
            None => None,
        }
    }

    pub fn state(&self) -> (res: NetworkState)
        ensures
            res == self.spec_state(),
    {
        self.state
    }

    /// Connects with `address`.
    pub fn connect(&mut self, address: String)
        ensures
            final(self).spec_address() == Some(address@),
            final(self).spec_state() == NetworkState::Connected,
            final(self).spec_name() == old(self).spec_name(),
    {
        let name = self.name.clone();
        *self = NetworkDevice { name, address: Some(address), state: NetworkState::Connected };
    }

    /// Disconnects, dropping the address.
    pub fn disconnect(&mut self)
        ensures
            final(self).spec_address() is None,
            final(self).spec_state() == NetworkState::Offline,
            final(self).spec_name() == old(self).spec_name(),
    {
        let name = self.name.clone();
        *self = NetworkDevice { name, address: None, state: NetworkState::Offline };
    }
}

impl Clone for NetworkDevice {
    fn clone(&self) -> (res: NetworkDevice)
        ensures
            res.spec_name() == self.spec_name(),
            res.spec_address() == self.spec_address(),
            res.spec_state() == self.spec_state(),
    {
        proof {
            use_type_invariant(self);
        }
        let address = match &self.address {
            Some(a) => Some(a.clone()),
            None => None,
        };
        NetworkDevice { name: self.name.clone(), address, state: self.state }
    }
}

/// A concrete network configuration service.
pub trait NetworkBackend {
    type Error;

    fn devices(&self) -> Result<Vec<NetworkDevice>, Self::Error>;
}

// ---------------------------------------------------------------------------
// Application management
// ---------------------------------------------------------------------------

/// An application at one version.
#[derive(Clone, Debug, PartialEq, Eq, Hash)]
pub struct ApplicationRef {
    id: BundleId,
    version: Version,
}

impl ApplicationRef {
    pub closed spec fn spec_id(&self) -> Seq<char> {
        self.id@
    }

    pub closed spec fn spec_version(&self) -> Version {
        self.version
    }

    pub fn new(id: BundleId, version: Version) -> (res: ApplicationRef)
        ensures
            res.spec_id() == id@,
            res.spec_version() == version,
    {
        ApplicationRef { id, version }
    }

    pub fn id(&self) -> (res: &BundleId)
        ensures
            res@ == self.spec_id(),
    {
        &self.id
    }

    pub fn version(&self) -> (res: Version)
        ensures
            res == self.spec_version(),
    {
        self.version
    }
}

/// A lifecycle operation on an installed application.
#[derive(Clone, Debug, PartialEq, Eq)]
pub enum ApplicationOperation {
    Install(ApplicationRef),
    Update { from: ApplicationRef, to: ApplicationRef },
    Remove(ApplicationRef),
    Verify(ApplicationRef),
    Migrate { from: Version, to: Version, id: BundleId },
}

#[derive(Debug)]
pub struct AppManagerError {
    message: String,
}

impl AppManagerError {
    pub closed spec fn spec_message(&self) -> Seq<char> {
        self.message@
    }

    pub fn new(message: String) -> (res: AppManagerError)
        ensures
            res.spec_message() == message@,
    {
        AppManagerError { message }
    }

    pub fn message(&self) -> (res: &str)
        ensures
            res@ == self.spec_message(),
    {
        self.message.as_str()
    }
}

/// Installation, update, removal, verification and migration backend.
pub trait ApplicationManager {
    fn execute(&mut self, operation: &ApplicationOperation) -> Result<(), AppManagerError>;
}

} // verus!
