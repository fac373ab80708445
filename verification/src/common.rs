//! Shared value types: runtime identity, user, bundle, session and process
//! identifiers and semantic versions.

use vstd::prelude::*;
use crate::text::str_eq;

verus! {

/// The userspace runtime an application executes against.
#[derive(Clone, Copy, Debug, PartialEq, Eq, Structural, Hash, PartialOrd, Ord)]
pub enum RuntimeKind {
    /// Native Luna userspace (musl).
    Luna,
    /// GNU libc compatibility runtime.
    Glibc,
    /// Runtime shipped privately inside the Bundle.
    Bundle,
}

/// Stable wire name of a runtime kind.
pub open spec fn runtime_wire_name(kind: RuntimeKind) -> Seq<char> {
    match kind {
        RuntimeKind::Luna => "luna"@,
        RuntimeKind::Glibc => "glibc"@,
        RuntimeKind::Bundle => "bundle"@,
    }
}

/// The runtime kind whose wire name is `name`, if any.
pub open spec fn runtime_from_wire_name(name: Seq<char>) -> Option<RuntimeKind> {
    if name == "luna"@ {
        Some(RuntimeKind::Luna)
    } else if name == "glibc"@ {
        Some(RuntimeKind::Glibc)
    } else if name == "bundle"@ {
        Some(RuntimeKind::Bundle)
    } else {
        None
    }
}

/// Error returned for an unknown runtime wire name.
#[derive(Clone, Copy, Debug, PartialEq, Eq, Structural)]
pub struct ParseRuntimeKindError;

impl ParseRuntimeKindError {
    /// Human-readable description of the error.
    pub fn message(&self) -> (res: &'static str)
        ensures
            res@ == "unknown Luna runtime kind"@,
    {
        "unknown Luna runtime kind"
    }
}

impl RuntimeKind {
    /// The stable wire name.
    pub fn as_str(self) -> (res: &'static str)
        ensures
            res@ == runtime_wire_name(self),
    {
        match self {
            RuntimeKind::Luna => "luna",
            RuntimeKind::Glibc => "glibc",
            RuntimeKind::Bundle => "bundle",
        }
    }

    /// True only for the native Luna runtime.
    pub fn is_native(self) -> (res: bool)
        ensures
            res == (self == RuntimeKind::Luna),
    {
        matches!(self, RuntimeKind::Luna)
    }

    /// Parses a wire name; every other text is rejected.
    pub fn from_str(value: &str) -> (res: Result<RuntimeKind, ParseRuntimeKindError>)
        ensures
            match runtime_from_wire_name(value@) {
                Some(kind) => res == Ok::<RuntimeKind, ParseRuntimeKindError>(kind),
                None => res is Err,
            },
    {
        if str_eq(value, "luna") {
            Ok(RuntimeKind::Luna)
        } else if str_eq(value, "glibc") {
            Ok(RuntimeKind::Glibc)
        } else if str_eq(value, "bundle") {
            Ok(RuntimeKind::Bundle)
        } else {
            Err(ParseRuntimeKindError)
        }
    }

    /// The default runtime: native Luna.
    pub fn default_kind() -> (res: RuntimeKind)
        ensures
            res == RuntimeKind::Luna,
    {
        RuntimeKind::Luna
    }
}

/// Parsing the wire name of a runtime kind gives that kind back, and the
/// wire names of distinct kinds differ.
pub proof fn lemma_runtime_wire_name_round_trip(kind: RuntimeKind)
    ensures
        runtime_from_wire_name(runtime_wire_name(kind)) == Some(kind),
{
    reveal_strlit("luna");
    reveal_strlit("glibc");
    reveal_strlit("bundle");
    assert("luna"@ != "glibc"@) by {
        assert("luna"@.len() != "glibc"@.len());
    }
    assert("luna"@ != "bundle"@) by {
        assert("luna"@.len() != "bundle"@.len());
    }
    assert("glibc"@ != "bundle"@) by {
        assert("glibc"@[0] != "bundle"@[0]);
    }
}

/// Runtime requested by an application or mapping.
#[derive(Clone, Copy, Debug, PartialEq, Eq, Structural, Hash, PartialOrd, Ord)]
pub struct RuntimeSpec {
    kind: RuntimeKind,
}

impl RuntimeSpec {
    /// The kind carried by this spec.
    pub closed spec fn spec_kind(self) -> RuntimeKind {
        self.kind
    }

    pub fn new(kind: RuntimeKind) -> (res: RuntimeSpec)
        ensures
            res.spec_kind() == kind,
    {
        RuntimeSpec { kind }
    }

    pub fn luna() -> (res: RuntimeSpec)
        ensures
            res.spec_kind() == RuntimeKind::Luna,
    {
        RuntimeSpec::new(RuntimeKind::Luna)
    }

    pub fn glibc() -> (res: RuntimeSpec)
        ensures
            res.spec_kind() == RuntimeKind::Glibc,
    {
        RuntimeSpec::new(RuntimeKind::Glibc)
    }

    pub fn bundle() -> (res: RuntimeSpec)
        ensures
            res.spec_kind() == RuntimeKind::Bundle,
    {
        RuntimeSpec::new(RuntimeKind::Bundle)
    }

    pub fn kind(self) -> (res: RuntimeKind)
        ensures
            res == self.spec_kind(),
    {
        self.kind
    }

    /// The default runtime spec is native Luna.
    pub fn default_spec() -> (res: RuntimeSpec)
        ensures
            res.spec_kind() == RuntimeKind::Luna,
    {
        RuntimeSpec::luna()
    }

    /// The spec for a given kind.
    pub fn from_kind(kind: RuntimeKind) -> (res: RuntimeSpec)
        ensures
            res.spec_kind() == kind,
    {
        RuntimeSpec::new(kind)
    }
}

impl Default for RuntimeSpec {
    fn default() -> (res: RuntimeSpec)
        ensures
            res.spec_kind() == RuntimeKind::Luna,
    {
        RuntimeSpec::luna()
    }
}

/// Stable identifier of a Luna user.
#[derive(Debug, Clone, PartialEq, Eq, Hash, PartialOrd, Ord)]
pub struct UserId {
    value: String,
}

impl View for UserId {
    type V = Seq<char>;

    closed spec fn view(&self) -> Seq<char> {
        self.value@
    }
}

impl UserId {
    pub fn new(value: String) -> (res: UserId)
        ensures
            res@ == value@,
    {
        UserId { value }
    }

    /// Builds an identifier from borrowed text.
    pub fn from_str(value: &str) -> (res: UserId)
        ensures
            res@ == value@,
    {
        UserId { value: value.to_owned() }
    }

    pub fn as_str(&self) -> (res: &str)
        ensures
            res@ == self@,
    {
        self.value.as_str()
    }

    pub fn into_string(self) -> (res: String)
        ensures
            res@ == self@,
    {
        self.value
    }

    /// The display text of the identifier.
    pub fn to_string(&self) -> (res: String)
        ensures
            res@ == self@,
    {
        self.value.clone()
    }
}

/// Identifier of a Bundle.
#[derive(Debug, Clone, PartialEq, Eq, Hash, PartialOrd, Ord)]
pub struct BundleId {
    value: String,
}

impl View for BundleId {
    type V = Seq<char>;

    closed spec fn view(&self) -> Seq<char> {
        self.value@
    }
}

impl BundleId {
    pub fn new(value: String) -> (res: BundleId)
        ensures
            res@ == value@,
    {
        BundleId { value }
    }

    pub fn from_str(value: &str) -> (res: BundleId)
        ensures
            res@ == value@,
    {
        BundleId { value: value.to_owned() }
    }

    pub fn as_str(&self) -> (res: &str)
        ensures
            res@ == self@,
    {
        self.value.as_str()
    }

    /// A copy of this identifier.
    pub fn duplicate(&self) -> (res: BundleId)
        ensures
            res@ == self@,
    {
        BundleId { value: self.value.clone() }
    }
}

/// A `MAJOR.MINOR.PATCH` version.
#[derive(Clone, Copy, Debug, PartialEq, Eq, Structural, Hash, PartialOrd, Ord)]
pub struct Version {
    pub major: u32,
    pub minor: u32,
    pub patch: u32,
}

impl Version {
    pub fn new(major: u32, minor: u32, patch: u32) -> (res: Version)
        ensures
            res == (Version { major, minor, patch }),
    {
        Version { major, minor, patch }
    }
}

/// Identifier of a user session.
#[derive(Clone, Copy, Debug, PartialEq, Eq, Structural, Hash, PartialOrd, Ord)]
pub struct SessionId {
    value: u64,
}

impl SessionId {
    pub closed spec fn spec_get(self) -> u64 {
        self.value
    }

    pub fn new(value: u64) -> (res: SessionId)
        ensures
            res.spec_get() == value,
    {
        SessionId { value }
    }

    pub fn get(self) -> (res: u64)
        ensures
            res == self.spec_get(),
    {
        self.value
    }
}

/// Identifier of a supervised process.
#[derive(Clone, Copy, Debug, PartialEq, Eq, Structural, Hash, PartialOrd, Ord)]
pub struct ProcessId {
    value: u32,
}

impl ProcessId {
    pub closed spec fn spec_get(self) -> u32 {
        self.value
    }

    pub fn new(value: u32) -> (res: ProcessId)
        ensures
            res.spec_get() == value,
    {
        ProcessId { value }
    }

    pub fn get(self) -> (res: u32)
        ensures
            res == self.spec_get(),
    {
        self.value
    }
}

} // verus!
