//! Discovery of System Images, luna-init cores and compatible kernels on the
//! system partition: their manifests, the persistent boot state, version
//! ordering and the choice of init and kernel for an image.

use vstd::prelude::*;
use crate::boot_target::{BootError, BootTarget, BootTargetView};
use crate::config_text::{
    ConfigEntry, chars_are, chars_view, config_entries, entries_view, parse_bool, parse_bool_value,
    parse_string, parse_string_array, parse_string_array_value, parse_string_value, scan_config,
    string_of,
};
use crate::path::split_seq;
use crate::text::{chars_of, parse_unsigned, parse_unsigned_chars, split_chars, trim, utf8_to_string};

verus! {

/// What a System Image is for.
#[derive(Clone, Copy, Debug, PartialEq, Eq, Structural)]
pub enum ImageRole {
    Normal,
    Factory,
    Recovery,
}

/// The `role` value of an image manifest; anything else is a normal image.
pub open spec fn role_of(v: Option<Seq<char>>) -> ImageRole {
    match v {
        Some(s) => if s == "factory"@ {
            ImageRole::Factory
        } else if s == "recovery"@ {
            ImageRole::Recovery
        } else {
            ImageRole::Normal
        },
        None => ImageRole::Normal,
    }
}

/// The manifest next to a System Image.
#[derive(Debug)]
pub struct ImageManifest {
    pub name: String,
    pub version: String,
    pub format: String,
    pub arch: String,
    pub role: ImageRole,
    pub compatible_inits: Vec<String>,
}

pub open spec fn strings_view(v: Seq<String>) -> Seq<Seq<char>> {
    Seq::new(v.len(), |i: int| v[i]@)
}

/// Fields of an image manifest read so far (the last assignment wins).
pub struct ImageAcc {
    pub name: Option<Seq<char>>,
    pub version: Option<Seq<char>>,
    pub format: Option<Seq<char>>,
    pub arch: Option<Seq<char>>,
    pub role: ImageRole,
    pub compatible: Seq<Seq<char>>,
}

pub open spec fn image_acc_start() -> ImageAcc {
    ImageAcc {
        name: None,
        version: None,
        format: None,
        arch: None,
        role: ImageRole::Normal,
        compatible: Seq::empty(),
    }
}

pub open spec fn image_step(a: ImageAcc, e: (Seq<char>, Seq<char>, Seq<char>)) -> ImageAcc {
    let (sec, key, value) = e;
    if sec == "image"@ && key == "name"@ {
        ImageAcc { name: parse_string(value), ..a }
    } else if sec == "image"@ && key == "version"@ {
        ImageAcc { version: parse_string(value), ..a }
    } else if sec == "image"@ && key == "format"@ {
        ImageAcc { format: parse_string(value), ..a }
    } else if sec == "image"@ && key == "role"@ {
        ImageAcc { role: role_of(parse_string(value)), ..a }
    } else if sec == "architecture"@ && key == "arch"@ {
        ImageAcc { arch: parse_string(value), ..a }
    } else if sec == "init"@ && key == "compatible"@ {
        ImageAcc { compatible: parse_string_array(value), ..a }
    } else {
        a
    }
}

pub open spec fn image_fold(es: Seq<(Seq<char>, Seq<char>, Seq<char>)>, i: int, a: ImageAcc) -> ImageAcc
    decreases es.len() - i,
{
    if i < 0 || i >= es.len() {
        a
    } else {
        image_fold(es, i + 1, image_step(a, es[i]))
    }
}

/// An image manifest as read from its text: name, version, format and
/// architecture must be present, the format `squashfs`, the architecture
/// `x86_64`, and at least one compatible init listed.
pub open spec fn image_manifest_ok(text: Seq<char>, m: ImageManifest) -> bool {
    let a = image_fold(config_entries(text), 0, image_acc_start());
    &&& a.name == Some(m.name@)
    &&& a.version == Some(m.version@)
    &&& a.format == Some(m.format@)
    &&& a.arch == Some(m.arch@)
    &&& a.role == m.role
    &&& a.compatible == strings_view(m.compatible_inits@)
    &&& m.format@ == "squashfs"@
    &&& m.arch@ == "x86_64"@
    &&& m.compatible_inits@.len() > 0
}

/// Whether the text is a valid image manifest.
pub open spec fn image_manifest_valid(text: Seq<char>) -> bool {
    let a = image_fold(config_entries(text), 0, image_acc_start());
    &&& a.name is Some && a.version is Some && a.format is Some && a.arch is Some
    &&& a.format->0 == "squashfs"@
    &&& a.arch->0 == "x86_64"@
    &&& a.compatible.len() > 0
}

pub open spec fn utf8_text(bytes: Seq<u8>) -> Option<Seq<char>> {
    if vstd::utf8::valid_utf8(bytes) {
        Some(vstd::utf8::decode_utf8(bytes))
    } else {
        None
    }
}

fn strings_of_chars(v: &Vec<Vec<char>>) -> (res: Vec<String>)
    ensures
        strings_view(res@) == chars_view(v@),
{
    let mut out: Vec<String> = Vec::new();
    let mut i: usize = 0;
    while i < v.len()
        invariant
            i <= v@.len(),
            strings_view(out@) == chars_view(v@).subrange(0, i as int),
        decreases v@.len() - i,
    {
        assert(chars_view(v@)[i as int] == v@[i as int]@);
        let ghost before = strings_view(out@);
        let s = string_of(&v[i]);
        out.push(s);
        assert(strings_view(out@) =~= before.push(s@));
        i = i + 1;
        assert(strings_view(out@) =~= chars_view(v@).subrange(0, i as int));
    }
    assert(chars_view(v@).subrange(0, v@.len() as int) =~= chars_view(v@));
    out
}

fn key_is(e: &ConfigEntry, section: &str, key: &str) -> (res: bool)
    ensures
        res == (e.section@ == section@ && e.key@ == key@),
{
    chars_are(e.section.as_slice(), section) && chars_are(e.key.as_slice(), key)
}

fn decode_config(bytes: &[u8]) -> (res: Option<Vec<ConfigEntry>>)
    ensures
        match utf8_text(bytes@) {
            Some(t) => res matches Some(v) && entries_view(v@) == config_entries(t),
            None => res is None,
        },
{
    let text = match utf8_to_string(bytes) {
        Some(t) => t,
        None => return None,
    };
    let chars = chars_of(text.as_str());
    Some(scan_config(chars.as_slice()))
}

fn take_opt(v: Option<Vec<char>>) -> (res: Option<String>)
    ensures
        match v {
            Some(c) => res matches Some(s) && s@ == c@,
            None => res is None,
        },
{
    match v {
        Some(c) => Some(string_of(&c)),
        None => None,
    }
}

impl ImageManifest {
    /// Reads an image manifest; any defect gives `InvalidConfig`.
    pub fn parse(bytes: &[u8]) -> (res: Result<ImageManifest, BootError>)
        ensures
            match utf8_text(bytes@) {
                None => res == Err::<ImageManifest, BootError>(BootError::InvalidConfig),
                Some(t) => if image_manifest_valid(t) {
                    res matches Ok(m) && image_manifest_ok(t, m)
                } else {
                    res == Err::<ImageManifest, BootError>(BootError::InvalidConfig)
                },
            },
    {
        let entries = match decode_config(bytes) {
            Some(e) => e,
            None => return Err(BootError::InvalidConfig),
        };
        let ghost es = entries_view(entries@);
        let mut name: Option<Vec<char>> = None;
        let mut version: Option<Vec<char>> = None;
        let mut format: Option<Vec<char>> = None;
        let mut arch: Option<Vec<char>> = None;
        let mut role = ImageRole::Normal;
        let mut compatible: Vec<Vec<char>> = Vec::new();
        assert(chars_view(compatible@) =~= Seq::<Seq<char>>::empty());
        let mut i: usize = 0;
        while i < entries.len()
            invariant
                es == entries_view(entries@),
                i <= entries@.len(),
                image_fold(es, 0, image_acc_start()) == image_fold(
                    es,
                    i as int,
                    ImageAcc {
                        name: match name { Some(v) => Some(v@), None => None },
                        version: match version { Some(v) => Some(v@), None => None },
                        format: match format { Some(v) => Some(v@), None => None },
                        arch: match arch { Some(v) => Some(v@), None => None },
                        role,
                        compatible: chars_view(compatible@),
                    },
                ),
            decreases entries@.len() - i,
        {
            let e = &entries[i];
            if key_is(e, "image", "name") {
                name = parse_string_value(e.value.as_slice());
            } else if key_is(e, "image", "version") {
                version = parse_string_value(e.value.as_slice());
            } else if key_is(e, "image", "format") {
                format = parse_string_value(e.value.as_slice());
            } else if key_is(e, "image", "role") {
                role = match parse_string_value(e.value.as_slice()) {
                    Some(s) => if chars_are(s.as_slice(), "factory") {
                        ImageRole::Factory
                    } else if chars_are(s.as_slice(), "recovery") {
                        ImageRole::Recovery
                    } else {
                        ImageRole::Normal
                    },
                    None => ImageRole::Normal,
                };
            } else if key_is(e, "architecture", "arch") {
                arch = parse_string_value(e.value.as_slice());
            } else if key_is(e, "init", "compatible") {
                compatible = parse_string_array_value(e.value.as_slice());
            }
            i = i + 1;
        }
        let name = match take_opt(name) {
            Some(s) => s,
            None => return Err(BootError::InvalidConfig),
        };
        let version = match take_opt(version) {
            Some(s) => s,
            None => return Err(BootError::InvalidConfig),
        };
        let format = match take_opt(format) {
            Some(s) => s,
            None => return Err(BootError::InvalidConfig),
        };
        let arch = match take_opt(arch) {
            Some(s) => s,
            None => return Err(BootError::InvalidConfig),
        };
        let compatible_inits = strings_of_chars(&compatible);
        if !crate::text::str_eq(format.as_str(), "squashfs") || !crate::text::str_eq(arch.as_str(), "x86_64")
            || compatible_inits.len() == 0 {
            return Err(BootError::InvalidConfig);
        }
        Ok(ImageManifest { name, version, format, arch, role, compatible_inits })
    }
}

/// The manifest of a luna-init core.
#[derive(Debug)]
pub struct InitManifest {
    pub name: String,
    pub version: String,
    pub arch: String,
    pub compatible_kernels: Vec<String>,
}

pub struct InitAcc {
    pub name: Option<Seq<char>>,
    pub version: Option<Seq<char>>,
    pub arch: Option<Seq<char>>,
    pub compatible: Seq<Seq<char>>,
}

pub open spec fn init_acc_start() -> InitAcc {
    InitAcc { name: None, version: None, arch: None, compatible: Seq::empty() }
}

pub open spec fn init_step(a: InitAcc, e: (Seq<char>, Seq<char>, Seq<char>)) -> InitAcc {
    let (sec, key, value) = e;
    if sec == "init"@ && key == "name"@ {
        InitAcc { name: parse_string(value), ..a }
    } else if sec == "init"@ && key == "version"@ {
        InitAcc { version: parse_string(value), ..a }
    } else if sec == "architecture"@ && key == "arch"@ {
        InitAcc { arch: parse_string(value), ..a }
    } else if sec == "kernels"@ && key == "compatible"@ {
        InitAcc { compatible: parse_string_array(value), ..a }
    } else {
        a
    }
}

pub open spec fn init_fold(es: Seq<(Seq<char>, Seq<char>, Seq<char>)>, i: int, a: InitAcc) -> InitAcc
    decreases es.len() - i,
{
    if i < 0 || i >= es.len() {
        a
    } else {
        init_fold(es, i + 1, init_step(a, es[i]))
    }
}

/// Whether the text is a valid init manifest: name `luna-init`, a version,
/// architecture `x86_64`, and at least one compatible kernel.
pub open spec fn init_manifest_valid(text: Seq<char>) -> bool {
    let a = init_fold(config_entries(text), 0, init_acc_start());
    &&& a.name == Some("luna-init"@)
    &&& a.version is Some
    &&& a.arch == Some("x86_64"@)
    &&& a.compatible.len() > 0
}

pub open spec fn init_manifest_ok(text: Seq<char>, m: InitManifest) -> bool {
    let a = init_fold(config_entries(text), 0, init_acc_start());
    &&& a.name == Some(m.name@)
    &&& a.version == Some(m.version@)
    &&& a.arch == Some(m.arch@)
    &&& a.compatible == strings_view(m.compatible_kernels@)
}

impl InitManifest {
    /// Reads an init manifest; any defect gives `InvalidConfig`.
    pub fn parse(bytes: &[u8]) -> (res: Result<InitManifest, BootError>)
        ensures
            match utf8_text(bytes@) {
                None => res == Err::<InitManifest, BootError>(BootError::InvalidConfig),
                Some(t) => if init_manifest_valid(t) {
                    res matches Ok(m) && init_manifest_ok(t, m)
                } else {
                    res == Err::<InitManifest, BootError>(BootError::InvalidConfig)
                },
            },
    {
        let entries = match decode_config(bytes) {
            Some(e) => e,
            None => return Err(BootError::InvalidConfig),
        };
        let ghost es = entries_view(entries@);
        let mut name: Option<Vec<char>> = None;
        let mut version: Option<Vec<char>> = None;
        let mut arch: Option<Vec<char>> = None;
        let mut compatible: Vec<Vec<char>> = Vec::new();
        assert(chars_view(compatible@) =~= Seq::<Seq<char>>::empty());
        let mut i: usize = 0;
        while i < entries.len()
            invariant
                es == entries_view(entries@),
                i <= entries@.len(),
                init_fold(es, 0, init_acc_start()) == init_fold(
                    es,
                    i as int,
                    InitAcc {
                        name: match name { Some(v) => Some(v@), None => None },
                        version: match version { Some(v) => Some(v@), None => None },
                        arch: match arch { Some(v) => Some(v@), None => None },
                        compatible: chars_view(compatible@),
                    },
                ),
            decreases entries@.len() - i,
        {
            let e = &entries[i];
            if key_is(e, "init", "name") {
                name = parse_string_value(e.value.as_slice());
            } else if key_is(e, "init", "version") {
                version = parse_string_value(e.value.as_slice());
            } else if key_is(e, "architecture", "arch") {
                arch = parse_string_value(e.value.as_slice());
            } else if key_is(e, "kernels", "compatible") {
                compatible = parse_string_array_value(e.value.as_slice());
            }
            i = i + 1;
        }
        let name = match take_opt(name) {
            Some(s) => s,
            None => return Err(BootError::InvalidConfig),
        };
        let version = match take_opt(version) {
            Some(s) => s,
            None => return Err(BootError::InvalidConfig),
        };
        let arch = match take_opt(arch) {
            Some(s) => s,
            None => return Err(BootError::InvalidConfig),
        };
        let compatible_kernels = strings_of_chars(&compatible);
        if !crate::text::str_eq(name.as_str(), "luna-init") || !crate::text::str_eq(arch.as_str(), "x86_64")
            || compatible_kernels.len() == 0 {
            return Err(BootError::InvalidConfig);
        }
        Ok(InitManifest { name, version, arch, compatible_kernels })
    }
}

/// A reference to a boot target by image version, init version and kernel
/// id.
#[derive(Clone, Debug, PartialEq, Eq)]
pub struct BootTargetRef {
    pub image: String,
    pub init: String,
    pub kernel: String,
}

/// The persistent boot state (`/config/boot-state.toml`).
#[derive(Clone, Debug, PartialEq, Eq)]
pub struct BootStateConfig {
    pub format: u64,
    pub generation: u64,
    pub current: Option<BootTargetRef>,
    pub fallback: Option<BootTargetRef>,
    pub recovery: Option<BootTargetRef>,
    pub factory: Option<BootTargetRef>,
    pub attempt_id: u64,
    pub previous_attempt_failed: bool,
    pub fallback_depth: u8,
    pub failure_code: u32,
}

/// Image, init and kernel fields of one target reference as read so far.
pub struct RefAcc {
    pub image: Option<Seq<char>>,
    pub init: Option<Seq<char>>,
    pub kernel: Option<Seq<char>>,
}

pub struct StateAcc {
    pub format: nat,
    pub generation: nat,
    pub attempt_id: nat,
    pub previous_attempt_failed: bool,
    pub fallback_depth: nat,
    pub failure_code: nat,
    pub targets: Seq<RefAcc>,
}

pub open spec fn ref_acc_empty() -> RefAcc {
    RefAcc { image: None, init: None, kernel: None }
}

pub open spec fn state_acc_start() -> StateAcc {
    StateAcc {
        format: 0,
        generation: 0,
        attempt_id: 0,
        previous_attempt_failed: false,
        fallback_depth: 0,
        failure_code: 0,
        targets: seq![ref_acc_empty(), ref_acc_empty(), ref_acc_empty(), ref_acc_empty()],
    }
}

/// Index of a `targets.*` section.
pub open spec fn target_slot(sec: Seq<char>) -> int {
    if sec == "targets.current"@ {
        0
    } else if sec == "targets.fallback"@ {
        1
    } else if sec == "targets.recovery"@ {
        2
    } else if sec == "targets.factory"@ {
        3
    } else {
        -1
    }
}

pub open spec fn set_ref_field(r: RefAcc, key: Seq<char>, v: Option<Seq<char>>) -> RefAcc {
    if key == "image"@ {
        RefAcc { image: v, ..r }
    } else if key == "init"@ {
        RefAcc { init: v, ..r }
    } else {
        RefAcc { kernel: v, ..r }
    }
}

/// One entry of the boot state; `None` when a numeric or boolean value is
/// malformed or out of range.
pub open spec fn state_step(a: StateAcc, e: (Seq<char>, Seq<char>, Seq<char>)) -> Option<StateAcc> {
    let (sec, key, raw) = e;
    let value = trim(raw);
    if sec == "state"@ && key == "format"@ {
        match parse_unsigned(trim(value), 0xffff_ffff_ffff_ffff) {
            Some(v) => Some(StateAcc { format: v, ..a }),
            None => None,
        }
    } else if sec == "state"@ && key == "generation"@ {
        match parse_unsigned(trim(value), 0xffff_ffff_ffff_ffff) {
            Some(v) => Some(StateAcc { generation: v, ..a }),
            None => None,
        }
    } else if sec == "boot"@ && key == "attempt_id"@ {
        match parse_unsigned(trim(value), 0xffff_ffff_ffff_ffff) {
            Some(v) => Some(StateAcc { attempt_id: v, ..a }),
            None => None,
        }
    } else if sec == "boot"@ && key == "previous_attempt_failed"@ {
        match parse_bool(value) {
            Some(b) => Some(StateAcc { previous_attempt_failed: b, ..a }),
            None => None,
        }
    } else if sec == "boot"@ && key == "fallback_depth"@ {
        match parse_unsigned(trim(value), 255) {
            Some(v) => Some(StateAcc { fallback_depth: v, ..a }),
            None => None,
        }
    } else if sec == "boot"@ && key == "failure_code"@ {
        match parse_unsigned(trim(value), 0xffff_ffff) {
            Some(v) => Some(StateAcc { failure_code: v, ..a }),
            None => None,
        }
    } else if target_slot(sec) >= 0 && (key == "image"@ || key == "init"@ || key == "kernel"@) {
        let k = target_slot(sec);
        Some(
            StateAcc {
                targets: a.targets.update(k, set_ref_field(a.targets[k], key, parse_string(value))),
                ..a
            },
        )
    } else {
        Some(a)
    }
}

pub open spec fn state_fold(es: Seq<(Seq<char>, Seq<char>, Seq<char>)>, i: int, a: Option<StateAcc>) -> Option<
    StateAcc,
>
    decreases es.len() - i,
{
    if i < 0 || i >= es.len() {
        a
    } else {
        match a {
            None => None,
            Some(s) => state_fold(es, i + 1, state_step(s, es[i])),
        }
    }
}

proof fn lemma_state_fold_none(es: Seq<(Seq<char>, Seq<char>, Seq<char>)>, i: int)
    ensures
        state_fold(es, i, None) is None,
    decreases es.len() - i,
{
    if 0 <= i < es.len() {
    }
}

/// A finished target reference: all three fields or none; a partial one is
/// malformed (`Err`).
pub open spec fn finish_ref(r: RefAcc) -> Result<Option<(Seq<char>, Seq<char>, Seq<char>)>, ()> {
    match (r.image, r.init, r.kernel) {
        (None, None, None) => Ok(None),
        (Some(a), Some(b), Some(c)) => Ok(Some((a, b, c))),
        _ => Err(()),
    }
}

pub open spec fn ref_view(r: Option<BootTargetRef>) -> Option<(Seq<char>, Seq<char>, Seq<char>)> {
    match r {
        Some(t) => Some((t.image@, t.init@, t.kernel@)),
        None => None,
    }
}

/// Whether a boot state text is valid: UTF-8, every value well formed,
/// format 1 and each target reference complete or absent.
pub open spec fn boot_state_valid(text: Seq<char>) -> bool {
    match state_fold(config_entries(text), 0, Some(state_acc_start())) {
        None => false,
        Some(a) => a.format == 1 && finish_ref(a.targets[0]) is Ok && finish_ref(a.targets[1]) is Ok
            && finish_ref(a.targets[2]) is Ok && finish_ref(a.targets[3]) is Ok,
    }
}

/// The boot state a valid text describes.
pub open spec fn boot_state_ok(text: Seq<char>, c: BootStateConfig) -> bool {
    let a = state_fold(config_entries(text), 0, Some(state_acc_start()))->0;
    &&& c.format == a.format
    &&& c.generation == a.generation
    &&& c.attempt_id == a.attempt_id
    &&& c.previous_attempt_failed == a.previous_attempt_failed
    &&& c.fallback_depth == a.fallback_depth
    &&& c.failure_code == a.failure_code
    &&& ref_view(c.current) == finish_ref(a.targets[0])->Ok_0
    &&& ref_view(c.fallback) == finish_ref(a.targets[1])->Ok_0
    &&& ref_view(c.recovery) == finish_ref(a.targets[2])->Ok_0
    &&& ref_view(c.factory) == finish_ref(a.targets[3])->Ok_0
}

/// Target reference fields collected by the parser.
struct RefFields {
    image: Option<Vec<char>>,
    init: Option<Vec<char>>,
    kernel: Option<Vec<char>>,
}

spec fn opt_view(v: Option<Vec<char>>) -> Option<Seq<char>> {
    match v {
        Some(c) => Some(c@),
        None => None,
    }
}

spec fn ref_fields_view(r: RefFields) -> RefAcc {
    RefAcc { image: opt_view(r.image), init: opt_view(r.init), kernel: opt_view(r.kernel) }
}

spec fn refs_view(v: Seq<RefFields>) -> Seq<RefAcc> {
    Seq::new(v.len(), |i: int| ref_fields_view(v[i]))
}

fn finish_ref_exec(r: RefFields) -> (res: Result<Option<BootTargetRef>, ()>)
    ensures
        match finish_ref(ref_fields_view(r)) {
            Ok(v) => res matches Ok(o) && ref_view(o) == v,
            Err(()) => res is Err,
        },
{
    match (r.image, r.init, r.kernel) {
        (None, None, None) => Ok(None),
        (Some(a), Some(b), Some(c)) => Ok(
            Some(BootTargetRef { image: string_of(&a), init: string_of(&b), kernel: string_of(&c) }),
        ),
        _ => Err(()),
    }
}

fn target_slot_exec(sec: &[char]) -> (res: usize)
    ensures
        res < 4 ==> res as int == target_slot(sec@),
        res >= 4 ==> target_slot(sec@) == -1,
{
    if chars_are(sec, "targets.current") {
        0
    } else if chars_are(sec, "targets.fallback") {
        1
    } else if chars_are(sec, "targets.recovery") {
        2
    } else if chars_are(sec, "targets.factory") {
        3
    } else {
        4
    }
}

fn trimmed_chars(v: &[char]) -> (res: Vec<char>)
    ensures
        res@ == trim(v@),
{
    let (a, b) = crate::text::trim_bounds(v);
    let mut out: Vec<char> = Vec::new();
    let mut i = a;
    while i < b
        invariant
            a <= i <= b <= v@.len(),
            out@ == v@.subrange(a as int, i as int),
        decreases b - i,
    {
        out.push(v[i]);
        i = i + 1;
        assert(out@ =~= v@.subrange(a as int, i as int));
    }
    out
}

fn parse_number(value: &[char], max: u64) -> (res: Option<u64>)
    ensures
        match parse_unsigned(trim(value@), max as nat) {
            Some(v) => res == Some(v as u64),
            None => res is None,
        },
{
    let t = trimmed_chars(value);
    assert(t@.subrange(0, t@.len() as int) =~= t@);
    parse_unsigned_chars(t.as_slice(), 0, t.len(), max)
}

spec fn acc_of(r: BootStateConfig, t: Seq<RefFields>) -> StateAcc {
    StateAcc {
        format: r.format as nat,
        generation: r.generation as nat,
        attempt_id: r.attempt_id as nat,
        previous_attempt_failed: r.previous_attempt_failed,
        fallback_depth: r.fallback_depth as nat,
        failure_code: r.failure_code as nat,
        targets: refs_view(t),
    }
}

fn apply_state_entry(result: &mut BootStateConfig, targets: &mut Vec<RefFields>, e: &ConfigEntry) -> (ok: bool)
    requires
        old(targets)@.len() == 4,
    ensures
        final(targets)@.len() == 4,
        match state_step(acc_of(*old(result), old(targets)@), crate::config_text::entry_view(*e)) {
            None => !ok,
            Some(a) => ok && acc_of(*final(result), final(targets)@) == a,
        },
{
    let value = trimmed_chars(e.value.as_slice());
    if key_is(e, "state", "format") {
        match parse_number(value.as_slice(), u64::MAX) {
            Some(v) => result.format = v,
            None => return false,
        }
    } else if key_is(e, "state", "generation") {
        match parse_number(value.as_slice(), u64::MAX) {
            Some(v) => result.generation = v,
            None => return false,
        }
    } else if key_is(e, "boot", "attempt_id") {
        match parse_number(value.as_slice(), u64::MAX) {
            Some(v) => result.attempt_id = v,
            None => return false,
        }
    } else if key_is(e, "boot", "previous_attempt_failed") {
        match parse_bool_value(value.as_slice()) {
            Some(b) => result.previous_attempt_failed = b,
            None => return false,
        }
    } else if key_is(e, "boot", "fallback_depth") {
        match parse_number(value.as_slice(), 255) {
            Some(v) => result.fallback_depth = v as u8,
            None => return false,
        }
    } else if key_is(e, "boot", "failure_code") {
        match parse_number(value.as_slice(), 0xffff_ffff) {
            Some(v) => result.failure_code = v as u32,
            None => return false,
        }
    } else {
        let slot = target_slot_exec(e.section.as_slice());
        let is_image = chars_are(e.key.as_slice(), "image");
        let is_init = chars_are(e.key.as_slice(), "init");
        let is_kernel = chars_are(e.key.as_slice(), "kernel");
        if slot < 4 && (is_image || is_init || is_kernel) {
            let v = parse_string_value(value.as_slice());
            let ghost vv = opt_view(v);
            let ghost before = refs_view(targets@);
            let old_fields = targets.remove(slot);
            let fields = if is_image {
                RefFields { image: v, init: old_fields.init, kernel: old_fields.kernel }
            } else if is_init {
                RefFields { image: old_fields.image, init: v, kernel: old_fields.kernel }
            } else {
                RefFields { image: old_fields.image, init: old_fields.init, kernel: v }
            };
            targets.insert(slot, fields);
            assert(refs_view(targets@) =~= before.update(
                slot as int,
                set_ref_field(before[slot as int], e.key@, vv),
            ));
        }
    }
    true
}

impl BootStateConfig {
    /// The state used when none is stored: everything zero or absent.
    pub fn empty() -> (res: BootStateConfig)
        ensures
            res.format == 0 && res.generation == 0 && res.attempt_id == 0 && !res.previous_attempt_failed
                && res.fallback_depth == 0 && res.failure_code == 0,
            res.current is None && res.fallback is None && res.recovery is None && res.factory is None,
    {
        BootStateConfig {
            format: 0,
            generation: 0,
            current: None,
            fallback: None,
            recovery: None,
            factory: None,
            attempt_id: 0,
            previous_attempt_failed: false,
            fallback_depth: 0,
            failure_code: 0,
        }
    }

    /// Reads the boot state; any defect gives `InvalidConfig`.
    pub fn parse(bytes: &[u8]) -> (res: Result<BootStateConfig, BootError>)
        ensures
            match utf8_text(bytes@) {
                None => res == Err::<BootStateConfig, BootError>(BootError::InvalidConfig),
                Some(t) => if boot_state_valid(t) {
                    res matches Ok(c) && boot_state_ok(t, c)
                } else {
                    res == Err::<BootStateConfig, BootError>(BootError::InvalidConfig)
                },
            },
    {
        let entries = match decode_config(bytes) {
            Some(e) => e,
            None => return Err(BootError::InvalidConfig),
        };
        let ghost es = entries_view(entries@);
        let mut result = BootStateConfig::empty();
        let mut targets: Vec<RefFields> = Vec::new();
        let mut t: usize = 0;
        while t < 4
            invariant
                t <= 4,
                targets@.len() == t,
                forall|j: int| 0 <= j < t ==> ref_fields_view(#[trigger] targets@[j]) == ref_acc_empty(),
            decreases 4 - t,
        {
            targets.push(RefFields { image: None, init: None, kernel: None });
            t = t + 1;
        }
        assert(refs_view(targets@) =~= state_acc_start().targets);
        assert(acc_of(result, targets@) == state_acc_start());
        let mut i: usize = 0;
        while i < entries.len()
            invariant
                es == entries_view(entries@),
                utf8_text(bytes@) is Some,
                config_entries(utf8_text(bytes@)->0) == es,
                i <= entries@.len(),
                targets@.len() == 4,
                state_fold(es, 0, Some(state_acc_start())) == state_fold(
                    es,
                    i as int,
                    Some(acc_of(result, targets@)),
                ),
            decreases entries@.len() - i,
        {
            proof {
                lemma_state_fold_none(es, i + 1);
                assert(es[i as int] == crate::config_text::entry_view(entries@[i as int]));
            }
            let ghost a0 = acc_of(result, targets@);
            if !apply_state_entry(&mut result, &mut targets, &entries[i]) {
                assert(state_fold(es, i as int, Some(a0)) is None);
                return Err(BootError::InvalidConfig);
            }
            i = i + 1;
        }
        if result.format != 1 {
            return Err(BootError::InvalidConfig);
        }
        let factory_f = targets.pop().unwrap();
        let recovery_f = targets.pop().unwrap();
        let fallback_f = targets.pop().unwrap();
        let current_f = targets.pop().unwrap();
        result.current = match finish_ref_exec(current_f) {
            Ok(r) => r,
            Err(()) => return Err(BootError::InvalidConfig),
        };
        result.fallback = match finish_ref_exec(fallback_f) {
            Ok(r) => r,
            Err(()) => return Err(BootError::InvalidConfig),
        };
        result.recovery = match finish_ref_exec(recovery_f) {
            Ok(r) => r,
            Err(()) => return Err(BootError::InvalidConfig),
        };
        result.factory = match finish_ref_exec(factory_f) {
            Ok(r) => r,
            Err(()) => return Err(BootError::InvalidConfig),
        };
        Ok(result)
    }
}

} // verus!
