//! Devices and volumes: identities, the input-device registry, and kernel
//! uevent messages.

use vstd::prelude::*;
use crate::order::{TextKeyed, sort_by_key, sorted_by_key};
use crate::path::{split_seq, split_bytes};
use crate::text::{
    chars_of, has_prefix_at, trim_bounds, trim, all_ws, utf8_to_string, string_from_chars, str_eq, string_push, decimal,
    signed_decimal, push_decimal, push_signed_decimal,
};
use crate::user_auth::{text_lines, lines_of};

verus! {

#[derive(Clone, Debug, PartialEq, Eq, Hash)]
pub struct DeviceId {
    value: String,
}

impl View for DeviceId {
    type V = Seq<char>;

    closed spec fn view(&self) -> Seq<char> {
        self.value@
    }
}

impl DeviceId {
    pub fn new(value: String) -> (res: DeviceId)
        ensures
            res@ == value@,
    {
        DeviceId { value }
    }

    pub fn as_str(&self) -> (res: &str)
        ensures
            res@ == self@,
    {
        self.value.as_str()
    }
}

#[derive(Clone, Debug, PartialEq, Eq, Hash)]
pub struct VolumeId {
    value: String,
}

impl View for VolumeId {
    type V = Seq<char>;

    closed spec fn view(&self) -> Seq<char> {
        self.value@
    }
}

impl VolumeId {
    pub fn new(value: String) -> (res: VolumeId)
        ensures
            res@ == value@,
    {
        VolumeId { value }
    }

    pub fn as_str(&self) -> (res: &str)
        ensures
            res@ == self@,
    {
        self.value.as_str()
    }
}

#[derive(Clone, Copy, Debug, PartialEq, Eq, Structural)]
pub enum VolumeState {
    Detected,
    Mounted,
    Unavailable,
    Removing,
}

pub open spec fn opt_view(o: Option<String>) -> Option<Seq<char>> {
    match o {
        Some(s) => Some(s@),
        None => None,
    }
}

/// A storage volume: its stable identity and the label a user gave it are
/// kept apart.
#[derive(Clone, Debug)]
pub struct VolumeInfo {
    id: VolumeId,
    label: Option<String>,
    state: VolumeState,
}

impl VolumeInfo {
    pub closed spec fn spec_id(&self) -> Seq<char> {
        self.id@
    }

    pub closed spec fn spec_label(&self) -> Option<Seq<char>> {
        opt_view(self.label)
    }

    pub closed spec fn spec_state(&self) -> VolumeState {
        self.state
    }

    pub fn new(id: VolumeId, label: Option<String>, state: VolumeState) -> (res: VolumeInfo)
        ensures
            res.spec_id() == id@,
            res.spec_label() == opt_view(label),
            res.spec_state() == state,
    {
        VolumeInfo { id, label, state }
    }

    pub fn id(&self) -> (res: &VolumeId)
        ensures
            res@ == self.spec_id(),
    {
        &self.id
    }

    pub fn label(&self) -> (res: Option<&str>)
        ensures
            match res {
                Some(l) => self.spec_label() == Some(l@),
                None => self.spec_label() is None,
            },
    {
        match &self.label {
            Some(l) => Some(l.as_str()),
            None => None,
        }
    }

    pub fn state(&self) -> (res: VolumeState)
        ensures
            res == self.spec_state(),
    {
        self.state
    }
}

/// Mathematical content of an input device record.
pub ghost struct InputDeviceView {
    pub id: Seq<char>,
    pub node: Seq<char>,
    pub sysfs_path: Seq<char>,
    pub name: Option<Seq<char>>,
}

/// An evdev input device: its identity, its kernel device node and sysfs
/// path, and the name the kernel reports for it.
#[derive(Clone, Debug)]
pub struct InputDeviceInfo {
    id: DeviceId,
    node: String,
    sysfs_path: String,
    name: Option<String>,
}

impl View for InputDeviceInfo {
    type V = InputDeviceView;

    closed spec fn view(&self) -> InputDeviceView {
        InputDeviceView {
            id: self.id@,
            node: self.node@,
            sysfs_path: self.sysfs_path@,
            name: opt_view(self.name),
        }
    }
}

pub open spec fn event_prefix() -> Seq<char> {
    seq!['e', 'v', 'e', 'n', 't']
}

pub open spec fn input_id_prefix() -> Seq<char> {
    seq!['i', 'n', 'p', 'u', 't', ':']
}

pub open spec fn input_dev_dir() -> Seq<char> {
    seq!['/', 'd', 'e', 'v', '/', 'i', 'n', 'p', 'u', 't', '/']
}

/// The record for the sysfs entry `entry` of the input class, given its
/// sysfs path and the raw contents of its `device/name` file (when read).
pub open spec fn input_record(entry: Seq<char>, sysfs_path: Seq<char>, raw_name: Option<Seq<char>>) -> Option<InputDeviceView> {
    if !(entry.len() >= 5 && entry.subrange(0, 5) == event_prefix()) {
        None
    } else {
        Some(
            InputDeviceView {
                id: input_id_prefix() + entry,
                node: input_dev_dir() + entry,
                sysfs_path,
                name: match raw_name {
                    Some(n) => if all_ws(n) {
                        None
                    } else {
                        Some(trim(n))
                    },
                    None => None,
                },
            },
        )
    }
}

impl InputDeviceInfo {
    pub fn new(id: DeviceId, node: String, sysfs_path: String, name: Option<String>) -> (res: InputDeviceInfo)
        ensures
            res@ == (InputDeviceView { id: id@, node: node@, sysfs_path: sysfs_path@, name: opt_view(name) }),
    {
        InputDeviceInfo { id, node, sysfs_path, name }
    }

    /// The record for an entry of `/sys/class/input`: only `event*` entries
    /// are devices; the id is `input:<entry>`, the node `/dev/input/<entry>`,
    /// and the name is the trimmed `device/name` text unless it is blank.
    pub fn from_sysfs_entry(entry: &str, sysfs_path: String, raw_name: Option<String>) -> (res: Option<InputDeviceInfo>)
        ensures
            match input_record(entry@, sysfs_path@, opt_view(raw_name)) {
                Some(v) => res matches Some(d) && d@ == v,
                None => res is None,
            },
    {
        let chars = chars_of(entry);
        let prefix = chars_of("event");
        proof {
            reveal_strlit("event");
            assert("event"@ =~= event_prefix());
        }
        if !has_prefix_at(chars.as_slice(), 0, prefix.as_slice()) {
            return None;
        }
        let mut id = String::from_str("input:");
        id.append(entry);
        let mut node = String::from_str("/dev/input/");
        node.append(entry);
        proof {
            reveal_strlit("input:");
            reveal_strlit("/dev/input/");
            assert("input:"@ =~= input_id_prefix());
            assert("/dev/input/"@ =~= input_dev_dir());
        }
        let name = match raw_name {
            Some(n) => {
                let c = chars_of(n.as_str());
                let (a, b) = trim_bounds(c.as_slice());
                if a == b {
                    None
                } else {
                    Some(string_from_chars(c.as_slice(), a, b))
                }
            },
            None => None,
        };
        Some(InputDeviceInfo { id: DeviceId::new(id), node, sysfs_path, name })
    }

    pub fn id(&self) -> (res: &DeviceId)
        ensures
            res@ == self@.id,
    {
        &self.id
    }

    pub fn node(&self) -> (res: &str)
        ensures
            res@ == self@.node,
    {
        self.node.as_str()
    }

    pub fn sysfs_path(&self) -> (res: &str)
        ensures
            res@ == self@.sysfs_path,
    {
        self.sysfs_path.as_str()
    }

    pub fn name(&self) -> (res: Option<&str>)
        ensures
            match res {
                Some(n) => self@.name == Some(n@),
                None => self@.name is None,
            },
    {
        match &self.name {
            Some(n) => Some(n.as_str()),
            None => None,
        }
    }
}

impl TextKeyed for InputDeviceInfo {
    open spec fn key_view(&self) -> Seq<char> {
        self@.node
    }

    fn key(&self) -> (res: &str) {
        self.node.as_str()
    }
}

pub open spec fn input_views(v: Seq<InputDeviceInfo>) -> Seq<InputDeviceView> {
    Seq::new(v.len(), |i: int| v[i]@)
}

/// The registry of input devices, ordered by device node.
pub struct DeviceManager {
    input: Vec<InputDeviceInfo>,
}

impl DeviceManager {
    pub closed spec fn spec_input(&self) -> Seq<InputDeviceInfo> {
        self.input@
    }

    /// An empty registry.
    pub fn new() -> (res: DeviceManager)
        ensures
            res.spec_input().len() == 0,
    {
        DeviceManager { input: Vec::new() }
    }

    /// Replaces the registry with `devices`, ordered by node.
    pub fn set_input_devices(&mut self, devices: Vec<InputDeviceInfo>)
        ensures
            sorted_by_key(final(self).spec_input()),
            final(self).spec_input().to_multiset() == devices@.to_multiset(),
    {
        self.input = sort_by_key(devices);
    }

    pub fn input_devices(&self) -> (res: &[InputDeviceInfo])
        ensures
            res@ == self.spec_input(),
    {
        self.input.as_slice()
    }
}

/// A source of volume information.
pub trait DeviceQuery {
    type Error;

    fn volumes(&self) -> Result<Vec<VolumeInfo>, Self::Error>;
}


// ---------------------------------------------------------------------------
// Kernel uevents
// ---------------------------------------------------------------------------

/// `l` begins with `p`.
pub open spec fn starts_with_chars(l: Seq<char>, p: Seq<char>) -> bool {
    p.len() <= l.len() && l.subrange(0, p.len() as int) == p
}

/// The udev properties the device report keeps.
pub open spec fn kept_udev_property(l: Seq<char>) -> bool {
    ||| starts_with_chars(l, "DEVNAME="@)
    ||| starts_with_chars(l, "ID_INPUT="@)
    ||| starts_with_chars(l, "ID_INPUT_KEYBOARD="@)
    ||| starts_with_chars(l, "ID_INPUT_MOUSE="@)
    ||| starts_with_chars(l, "ID_INPUT_TOUCHPAD="@)
    ||| starts_with_chars(l, "ID_SEAT="@)
    ||| starts_with_chars(l, "TAGS="@)
}

/// The kept lines, each followed by a line break.
pub open spec fn kept_lines(ls: Seq<Seq<char>>) -> Seq<char>
    decreases ls.len(),
{
    if ls.len() == 0 {
        Seq::empty()
    } else {
        kept_lines(ls.drop_last()) + if kept_udev_property(ls.last()) {
            ls.last() + "\n"@
        } else {
            Seq::empty()
        }
    }
}

/// What `udevadm info --query=property` reported for one device: its exit
/// code (none when a signal ended it) and its output.
pub struct UdevQuery {
    pub exit_code: Option<i32>,
    pub output: String,
}

/// The report lines about one device's udev properties: the query's exit
/// code (-1 when there is none) and the kept property lines, or that udev
/// is unavailable.
pub open spec fn udev_block(q: Option<UdevQuery>) -> Seq<char> {
    match q {
        None => "udev_info_status=unavailable\n"@,
        Some(query) => "udev_info_status="@ + signed_decimal(
            match query.exit_code {
                Some(c) => c as int,
                None => -1,
            },
        ) + "\n"@ + kept_lines(text_lines(query.output@)),
    }
}

/// The report lines about one input device.
pub open spec fn device_block(d: InputDeviceView, q: Option<UdevQuery>) -> Seq<char> {
    "input="@ + d.node + "\n"@ + "name="@ + match d.name {
        Some(n) => n,
        None => Seq::empty(),
    } + "\n"@ + udev_block(q)
}

pub open spec fn query_at(queries: Option<Seq<UdevQuery>>, i: int) -> Option<UdevQuery> {
    match queries {
        Some(qs) => Some(qs[i]),
        None => None,
    }
}

pub open spec fn device_blocks(devices: Seq<InputDeviceView>, queries: Option<Seq<UdevQuery>>, n: nat) -> Seq<char>
    decreases n,
{
    if n == 0 {
        Seq::empty()
    } else {
        device_blocks(devices, queries, (n - 1) as nat) + device_block(devices[n - 1], query_at(queries, n - 1))
    }
}

/// The device manager's status file: the device count, a block per input
/// device, whether the udev compatibility backend runs (it does exactly
/// when there are udev queries), and the number of udev database entries.
pub open spec fn status_report(devices: Seq<InputDeviceView>, queries: Option<Seq<UdevQuery>>, db_entries: nat) -> Seq<char> {
    "input_devices="@ + decimal(devices.len()) + "\n"@ + device_blocks(devices, queries, devices.len())
        + "udev_compat_backend="@ + (if queries is Some {
        "1\n"@
    } else {
        "0\n"@
    }) + "native_uevent_monitor=1\n"@ + "udev_db_entries="@ + decimal(db_entries) + "\n"@
}

fn chars_start_with(line: &Vec<char>, prefix: &str) -> (res: bool)
    ensures
        res == starts_with_chars(line@, prefix@),
{
    let p = chars_of(prefix);
    has_prefix_at(line.as_slice(), 0, p.as_slice())
}

fn kept_property_line(line: &Vec<char>) -> (res: bool)
    ensures
        res == kept_udev_property(line@),
{
    chars_start_with(line, "DEVNAME=") || chars_start_with(line, "ID_INPUT=") || chars_start_with(
        line,
        "ID_INPUT_KEYBOARD=",
    ) || chars_start_with(line, "ID_INPUT_MOUSE=") || chars_start_with(line, "ID_INPUT_TOUCHPAD=")
        || chars_start_with(line, "ID_SEAT=") || chars_start_with(line, "TAGS=")
}

fn push_chars(out: &mut String, chars: &Vec<char>)
    ensures
        final(out)@ == old(out)@ + chars@,
{
    let mut i: usize = 0;
    while i < chars.len()
        invariant
            i <= chars@.len(),
            out@ == old(out)@ + chars@.subrange(0, i as int),
        decreases chars@.len() - i,
    {
        string_push(out, chars[i]);
        i = i + 1;
        assert(out@ =~= old(out)@ + chars@.subrange(0, i as int));
    }
    assert(chars@.subrange(0, chars@.len() as int) =~= chars@);
}

fn push_udev_block(out: &mut String, query: Option<&UdevQuery>)
    ensures
        final(out)@ == old(out)@ + udev_block(
            match query {
                Some(q) => Some(*q),
                None => None,
            },
        ),
{
    match query {
        None => {
            out.append("udev_info_status=unavailable\n");
        },
        Some(q) => {
            out.append("udev_info_status=");
            let code = match q.exit_code {
                Some(c) => c,
                None => -1,
            };
            push_signed_decimal(out, code);
            out.append("\n");
            let lines = lines_of(q.output.as_str());
            let ghost ls = text_lines(q.output@);
            let ghost head = out@;
            let mut i: usize = 0;
            while i < lines.len()
                invariant
                    lines.deep_view() == ls,
                    i <= ls.len(),
                    out@ == head + kept_lines(ls.subrange(0, i as int)),
                decreases ls.len() - i,
            {
                let line = &lines[i];
                assert(line@ == ls[i as int]);
                assert(ls.subrange(0, i + 1).drop_last() =~= ls.subrange(0, i as int));
                if kept_property_line(line) {
                    push_chars(out, line);
                    out.append("\n");
                }
                i = i + 1;
                assert(out@ =~= head + kept_lines(ls.subrange(0, i as int)));
            }
            assert(ls.subrange(0, ls.len() as int) =~= ls);
        },
    }
}

/// Renders the device manager's status file (see [`status_report`]).
/// `queries`, when given, holds one udev query per device, in order.
pub fn device_status_report(devices: &[InputDeviceInfo], queries: Option<&[UdevQuery]>, udev_db_entries: u64) -> (res: String)
    requires
        queries matches Some(qs) ==> qs@.len() == devices@.len(),
    ensures
        res@ == status_report(
            input_views(devices@),
            match queries {
                Some(qs) => Some(qs@),
                None => None,
            },
            udev_db_entries as nat,
        ),
{
    let ghost views = input_views(devices@);
    let ghost qv = match queries {
        Some(qs) => Some(qs@),
        None => None::<Seq<UdevQuery>>,
    };
    let mut out = String::from_str("input_devices=");
    push_decimal(&mut out, devices.len() as u64);
    out.append("\n");
    let ghost head = out@;
    let mut i: usize = 0;
    while i < devices.len()
        invariant
            i <= devices@.len(),
            views == input_views(devices@),
            qv == (match queries {
                Some(qs) => Some(qs@),
                None => None::<Seq<UdevQuery>>,
            }),
            queries matches Some(qs) ==> qs@.len() == devices@.len(),
            out@ == head + device_blocks(views, qv, i as nat),
        decreases devices@.len() - i,
    {
        let d = &devices[i];
        assert(d@ == views[i as int]);
        let ghost before = out@;
        out.append("input=");
        out.append(d.node());
        out.append("\n");
        out.append("name=");
        match d.name() {
            Some(n) => out.append(n),
            None => {},
        }
        out.append("\n");
        let q = match queries {
            Some(qs) => Some(&qs[i]),
            None => None,
        };
        push_udev_block(&mut out, q);
        proof {
            assert(query_at(qv, i as int) == match q {
                Some(x) => Some(*x),
                None => None::<UdevQuery>,
            });
            assert(out@ =~= before + device_block(views[i as int], query_at(qv, i as int)));
        }
        i = i + 1;
    }
    out.append("udev_compat_backend=");
    match queries {
        Some(_) => out.append("1\n"),
        None => out.append("0\n"),
    }
    out.append("native_uevent_monitor=1\n");
    out.append("udev_db_entries=");
    push_decimal(&mut out, udev_db_entries);
    out.append("\n");
    assert(out@ =~= status_report(views, qv, udev_db_entries as nat));
    out
}

/// A kernel uevent: `ACTION@DEVPATH` followed by `KEY=VALUE` properties.
#[derive(Clone, Debug, PartialEq, Eq)]
pub struct Uevent {
    pub action: String,
    pub devpath: String,
    pub properties: Vec<(String, String)>,
}

#[derive(Clone, Copy, Debug, PartialEq, Eq, Structural)]
pub enum UeventError {
    HeaderMissing,
    HeaderNotUtf8,
    HeaderMalformed,
    PropertyNotUtf8,
}

/// The description of a `UeventError`.
pub open spec fn uevent_error_text(e: UeventError) -> Seq<char> {
    match e {
        UeventError::HeaderMissing => "uevent header missing"@,
        UeventError::HeaderNotUtf8 => "uevent header is not UTF-8"@,
        UeventError::HeaderMalformed => "uevent header is malformed"@,
        UeventError::PropertyNotUtf8 => "uevent property is not UTF-8"@,
    }
}

impl UeventError {
    pub fn message(&self) -> (res: &'static str)
        ensures
            res@ == uevent_error_text(*self),
    {
        match self {
            UeventError::HeaderMissing => "uevent header missing",
            UeventError::HeaderNotUtf8 => "uevent header is not UTF-8",
            UeventError::HeaderMalformed => "uevent header is malformed",
            UeventError::PropertyNotUtf8 => "uevent property is not UTF-8",
        }
    }
}

pub open spec fn props_view(v: Seq<(String, String)>) -> Seq<(Seq<char>, Seq<char>)> {
    Seq::new(v.len(), |i: int| (v[i].0@, v[i].1@))
}

/// Index of the first `c` in `s` (`s.len()` when there is none).
pub open spec fn first_index_of(s: Seq<char>, c: char) -> int
    decreases s.len(),
{
    if s.len() == 0 {
        0
    } else if s[0] == c {
        0
    } else {
        1 + first_index_of(s.drop_first(), c)
    }
}

/// `str::split_once`: the text before and after the first `c`.
pub open spec fn split_once(s: Seq<char>, c: char) -> Option<(Seq<char>, Seq<char>)> {
    let i = first_index_of(s, c);
    if i < s.len() {
        Some((s.subrange(0, i), s.subrange(i + 1, s.len() as int)))
    } else {
        None
    }
}

pub open spec fn field_nonempty() -> spec_fn(Seq<u8>) -> bool {
    |f: Seq<u8>| f.len() > 0
}

pub open spec fn field_property() -> spec_fn(Seq<u8>) -> Option<(Seq<char>, Seq<char>)> {
    |f: Seq<u8>| split_once(vstd::utf8::decode_utf8(f), '=')
}

/// The non-empty NUL-separated fields of a message.
pub open spec fn uevent_fields(b: Seq<u8>) -> Seq<Seq<u8>> {
    split_seq(b, 0u8).filter(field_nonempty())
}

/// Parse of a uevent message: the first field is `ACTION@DEVPATH`; every
/// later field must be UTF-8, and those holding `=` are properties.
pub open spec fn uevent_result(b: Seq<u8>) -> Result<(Seq<char>, Seq<char>, Seq<(Seq<char>, Seq<char>)>), UeventError> {
    let fields = uevent_fields(b);
    if fields.len() == 0 {
        Err(UeventError::HeaderMissing)
    } else if !vstd::utf8::valid_utf8(fields[0]) {
        Err(UeventError::HeaderNotUtf8)
    } else {
        match split_once(vstd::utf8::decode_utf8(fields[0]), '@') {
            None => Err(UeventError::HeaderMalformed),
            Some((action, devpath)) => if exists|i: int|
                1 <= i < fields.len() && !vstd::utf8::valid_utf8(fields[i]) {
                Err(UeventError::PropertyNotUtf8)
            } else {
                Ok((action, devpath, fields.drop_first().filter_map(field_property())))
            },
        }
    }
}

proof fn lemma_first_index(s: Seq<char>, c: char, i: int)
    requires
        0 <= i <= s.len(),
        forall|j: int| 0 <= j < i ==> s[j] != c,
    ensures
        i < s.len() && s[i] == c ==> first_index_of(s, c) == i,
        i == s.len() ==> first_index_of(s, c) == s.len(),
    decreases i,
{
    if i > 0 {
        assert forall|j: int| 0 <= j < i - 1 implies s.drop_first()[j] != c by {
            assert(s.drop_first()[j] == s[j + 1]);
        }
        lemma_first_index(s.drop_first(), c, i - 1);
    }
}

/// `split_once` on a character vector: the parts as strings.
pub fn split_once_chars(chars: &[char], c: char) -> (res: Option<(String, String)>)
    ensures
        match split_once(chars@, c) {
            Some((a, b)) => res matches Some((x, y)) && x@ == a && y@ == b,
            None => res is None,
        },
{
    let n = chars.len();
    let mut i: usize = 0;
    while i < n && chars[i] != c
        invariant
            n == chars@.len(),
            i <= n,
            forall|j: int| 0 <= j < i ==> chars@[j] != c,
        decreases n - i,
    {
        i = i + 1;
    }
    proof {
        lemma_first_index(chars@, c, i as int);
    }
    if i == n {
        return None;
    }
    Some((string_from_chars(chars, 0, i), string_from_chars(chars, i + 1, n)))
}

/// Parses one uevent message (see `uevent_result`).
pub fn parse_message(bytes: &[u8]) -> (res: Result<Uevent, UeventError>)
    ensures
        match uevent_result(bytes@) {
            Ok((a, d, p)) => res matches Ok(e) && e.action@ == a && e.devpath@ == d && props_view(
                e.properties@,
            ) == p,
            Err(f) => res == Err::<Uevent, UeventError>(f),
        },
{
    let pieces = split_bytes(bytes, 0);
    let ghost pv = pieces.deep_view();
    let mut fields: Vec<Vec<u8>> = Vec::new();
    let mut i: usize = 0;
    while i < pieces.len()
        invariant
            pv == pieces.deep_view(),
            i <= pv.len(),
            fields.deep_view() == pv.take(i as int).filter(field_nonempty()),
        decreases pv.len() - i,
    {
        proof {
            reveal(Seq::filter);
            assert(pv.take(i + 1).drop_last() =~= pv.take(i as int));
            assert(pv.take(i + 1).last() == pv[i as int]);
        }
        assert(pieces[i as int]@ == pv[i as int]);
        if pieces[i].len() > 0 {
            let ghost before = fields.deep_view();
            let copy = vstd::slice::slice_to_vec(pieces[i].as_slice());
            fields.push(copy);
            proof {
                assert(fields.deep_view() =~= before.push(pv[i as int]));
                assert((field_nonempty())(pv[i as int]));
                assert(pv.take(i + 1).filter(field_nonempty()) == pv.take(i as int).filter(field_nonempty()).push(pv[i as int]));
            }
        } else {
            assert(!(field_nonempty())(pv[i as int]));
            assert(pv.take(i + 1).filter(field_nonempty()) == pv.take(i as int).filter(field_nonempty()));
        }
        i = i + 1;
    }
    proof {
        reveal(Seq::filter);
        assert(pv.take(pv.len() as int) =~= pv);
        assert(pv.take(0).filter(field_nonempty()) =~= Seq::<Seq<u8>>::empty());
    }
    let ghost fv = fields.deep_view();
    assert(fv == uevent_fields(bytes@));
    if fields.len() == 0 {
        return Err(UeventError::HeaderMissing);
    }
    assert(fields[0]@ == fv[0]);
    let header = match utf8_to_string(fields[0].as_slice()) {
        Some(h) => h,
        None => return Err(UeventError::HeaderNotUtf8),
    };
    let hc = chars_of(header.as_str());
    let (action, devpath) = match split_once_chars(hc.as_slice(), '@') {
        Some(p) => p,
        None => return Err(UeventError::HeaderMalformed),
    };
    let mut properties: Vec<(String, String)> = Vec::new();
    let mut k: usize = 1;
    proof {
        assert(fv.subrange(1, 1) =~= Seq::<Seq<u8>>::empty());
        assert(props_view(properties@) =~= Seq::<(Seq<char>, Seq<char>)>::empty());
    }
    while k < fields.len()
        invariant
            fv == fields.deep_view(),
            fv == uevent_fields(bytes@),
            1 <= k <= fv.len(),
            vstd::utf8::valid_utf8(fv[0]),
            split_once(vstd::utf8::decode_utf8(fv[0]), '@') == Some((action@, devpath@)),
            props_view(properties@) == fv.subrange(1, k as int).filter_map(field_property()),
            forall|j: int| 1 <= j < k ==> vstd::utf8::valid_utf8(fv[j]),
        decreases fv.len() - k,
    {
        assert(fields[k as int]@ == fv[k as int]);
        let text = match utf8_to_string(fields[k].as_slice()) {
            Some(t) => t,
            None => {
                assert(!vstd::utf8::valid_utf8(fv[k as int]));
                return Err(UeventError::PropertyNotUtf8);
            },
        };
        let tc = chars_of(text.as_str());
        let ghost before = props_view(properties@);
        proof {
            assert(fv.subrange(1, k + 1).drop_last() =~= fv.subrange(1, k as int));
            assert(fv.subrange(1, k + 1).last() == fv[k as int]);
        }
        match split_once_chars(tc.as_slice(), '=') {
            Some(pair) => {
                properties.push(pair);
                proof {
                    assert(props_view(properties@) =~= before + seq![(pair.0@, pair.1@)]);
                }
            },
            None => {},
        }
        k = k + 1;
    }
    proof {
        assert(fv.subrange(1, fv.len() as int) =~= fv.drop_first());
    }
    Ok(Uevent { action, devpath, properties })
}

/// The value of the first property named `name`.
pub open spec fn first_property(p: Seq<(Seq<char>, Seq<char>)>, name: Seq<char>) -> Option<Seq<char>>
    decreases p.len(),
{
    if p.len() == 0 {
        None
    } else if p[0].0 == name {
        Some(p[0].1)
    } else {
        first_property(p.drop_first(), name)
    }
}

proof fn lemma_first_property(p: Seq<(Seq<char>, Seq<char>)>, name: Seq<char>, i: int)
    requires
        0 <= i <= p.len(),
        forall|j: int| 0 <= j < i ==> p[j].0 != name,
    ensures
        i < p.len() && p[i].0 == name ==> first_property(p, name) == Some(p[i].1),
        i == p.len() ==> first_property(p, name) is None,
    decreases i,
{
    if i > 0 {
        assert forall|j: int| 0 <= j < i - 1 implies p.drop_first()[j].0 != name by {
            assert(p.drop_first()[j] == p[j + 1]);
        }
        lemma_first_property(p.drop_first(), name, i - 1);
    }
}

impl Uevent {
    /// The value of the first property named `name`.
    pub fn property(&self, name: &str) -> (res: Option<&str>)
        ensures
            match first_property(props_view(self.properties@), name@) {
                Some(v) => res matches Some(r) && r@ == v,
                None => res is None,
            },
    {
        let ghost pv = props_view(self.properties@);
        let mut i: usize = 0;
        while i < self.properties.len()
            invariant
                pv == props_view(self.properties@),
                i <= pv.len(),
                forall|j: int| 0 <= j < i ==> pv[j].0 != name@,
            decreases pv.len() - i,
        {
            if str_eq(self.properties[i].0.as_str(), name) {
                proof {
                    lemma_first_property(pv, name@, i as int);
                }
                return Some(self.properties[i].1.as_str());
            }
            i = i + 1;
        }
        proof {
            lemma_first_property(pv, name@, i as int);
        }
        None
    }

    /// The `SUBSYSTEM` property.
    pub fn subsystem(&self) -> (res: Option<&str>)
        ensures
            match first_property(props_view(self.properties@), seq!['S', 'U', 'B', 'S', 'Y', 'S', 'T', 'E', 'M']) {
                Some(v) => res matches Some(r) && r@ == v,
                None => res is None,
            },
    {
        proof {
            reveal_strlit("SUBSYSTEM");
            assert("SUBSYSTEM"@ =~= seq!['S', 'U', 'B', 'S', 'Y', 'S', 'T', 'E', 'M']);
        }
        self.property("SUBSYSTEM")
    }

    /// The `DEVNAME` property.
    pub fn devname(&self) -> (res: Option<&str>)
        ensures
            match first_property(props_view(self.properties@), seq!['D', 'E', 'V', 'N', 'A', 'M', 'E']) {
                Some(v) => res matches Some(r) && r@ == v,
                None => res is None,
            },
    {
        proof {
            reveal_strlit("DEVNAME");
            assert("DEVNAME"@ =~= seq!['D', 'E', 'V', 'N', 'A', 'M', 'E']);
        }
        self.property("DEVNAME")
    }
}

} // verus!
