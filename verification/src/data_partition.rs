//! Choice of the LUNA-DATA partition: the optional preference stored in
//! `/config/luna-data.toml` and the selection among the `data` partitions
//! found on all disks.

use vstd::prelude::*;
use crate::boot_target::BootError;
use crate::config_text::{ConfigEntry, chars_are, config_entries, entries_view, parse_string, parse_string_value};
use crate::discovery::utf8_text;
use crate::gpt::Partition;

verus! {

/// Whether a usable data partition was found.
#[derive(Clone, Copy, Debug, Eq, PartialEq, Structural)]
pub enum DataStatus {
    Found,
    Missing,
    Ambiguous,
}

/// A preferred data partition, by disk and partition GUID (both or
/// neither).
#[derive(Clone, Copy, Debug, PartialEq, Eq)]
pub struct DataConfig {
    pub preferred_disk_guid: Option<[u8; 16]>,
    pub preferred_partition_guid: Option<[u8; 16]>,
}

pub open spec fn is_hex(c: char) -> bool {
    ('0' <= c <= '9') || ('a' <= c <= 'f') || ('A' <= c <= 'F')
}

pub open spec fn hex_value(c: char) -> int {
    if '0' <= c <= '9' {
        (c as int) - 48
    } else if 'a' <= c <= 'f' {
        (c as int) - 87
    } else {
        (c as int) - 55
    }
}

/// Text position of the first digit of canonical byte `k`.
pub open spec fn guid_pos(k: int) -> int {
    if k < 4 {
        2 * k
    } else if k < 6 {
        2 * k + 1
    } else if k < 8 {
        2 * k + 2
    } else if k < 10 {
        2 * k + 3
    } else {
        2 * k + 4
    }
}

pub open spec fn is_dash_pos(i: int) -> bool {
    i == 8 || i == 13 || i == 18 || i == 23
}

/// `8-4-4-4-12` hexadecimal digits.
pub open spec fn guid_text_ok(s: Seq<char>) -> bool {
    &&& s.len() == 36
    &&& forall|i: int| 0 <= i < 36 ==> if is_dash_pos(i) {
        s[i] == '-'
    } else {
        is_hex(#[trigger] s[i])
    }
}

/// Byte `k` in text order.
pub open spec fn guid_canonical(s: Seq<char>, k: int) -> int {
    hex_value(s[guid_pos(k)]) * 16 + hex_value(s[guid_pos(k) + 1])
}

/// Where raw byte `k` comes from: the first three groups are stored
/// little-endian on disk.
pub open spec fn guid_source(k: int) -> int {
    if k < 4 {
        3 - k
    } else if k < 6 {
        9 - k
    } else if k < 8 {
        13 - k
    } else {
        k
    }
}

/// The on-disk bytes of a textual GUID.
pub open spec fn guid_bytes(s: Seq<char>) -> Option<Seq<u8>> {
    if guid_text_ok(s) {
        Some(Seq::new(16, |k: int| guid_canonical(s, guid_source(k)) as u8))
    } else {
        None
    }
}

fn hex_exec(c: char) -> (res: Option<u8>)
    ensures
        is_hex(c) ==> res == Some(hex_value(c) as u8) && 0 <= hex_value(c) < 16,
        !is_hex(c) ==> res is None,
{
    let v = c as u32;
    if 48 <= v && v <= 57 {
        Some((v - 48) as u8)
    } else if 97 <= v && v <= 102 {
        Some((v - 87) as u8)
    } else if 65 <= v && v <= 70 {
        Some((v - 55) as u8)
    } else {
        None
    }
}

fn guid_pos_exec(k: usize) -> (res: usize)
    requires
        k < 16,
    ensures
        res as int == guid_pos(k as int),
        res + 1 < 36,
        !is_dash_pos(res as int),
        !is_dash_pos(res as int + 1),
{
    if k < 4 {
        2 * k
    } else if k < 6 {
        2 * k + 1
    } else if k < 8 {
        2 * k + 2
    } else if k < 10 {
        2 * k + 3
    } else {
        2 * k + 4
    }
}

/// Parses a textual GUID into its on-disk byte order.
pub fn parse_guid(s: &[char]) -> (res: Option<[u8; 16]>)
    ensures
        match guid_bytes(s@) {
            Some(b) => res matches Some(g) && g@ == b,
            None => res is None,
        },
{
    if s.len() != 36 {
        return None;
    }
    let mut i: usize = 0;
    while i < 36
        invariant
            s@.len() == 36,
            i <= 36,
            forall|j: int| 0 <= j < i ==> if is_dash_pos(j) {
                s@[j] == '-'
            } else {
                is_hex(#[trigger] s@[j])
            },
        decreases 36 - i,
    {
        if i == 8 || i == 13 || i == 18 || i == 23 {
            if s[i] != '-' {
                return None;
            }
        } else if hex_exec(s[i]).is_none() {
            return None;
        }
        i = i + 1;
    }
    let mut canonical = [0u8; 16];
    let mut k: usize = 0;
    while k < 16
        invariant
            s@.len() == 36,
            guid_text_ok(s@),
            k <= 16,
            canonical@.len() == 16,
            forall|j: int| 0 <= j < k ==> canonical@[j] == guid_canonical(s@, j) as u8,
        decreases 16 - k,
    {
        let p = guid_pos_exec(k);
        let hi = hex_exec(s[p]).unwrap();
        let lo = hex_exec(s[p + 1]).unwrap();
        canonical[k] = hi * 16 + lo;
        k = k + 1;
    }
    let mut raw = [0u8; 16];
    let mut m: usize = 0;
    while m < 16
        invariant
            m <= 16,
            canonical@.len() == 16,
            raw@.len() == 16,
            forall|j: int| 0 <= j < m ==> raw@[j] == canonical@[guid_source(j)],
        decreases 16 - m,
    {
        let src: usize = if m < 4 {
            3 - m
        } else if m < 6 {
            9 - m
        } else if m < 8 {
            13 - m
        } else {
            m
        };
        raw[m] = canonical[src];
        m = m + 1;
    }
    assert(raw@ =~= Seq::new(16, |k: int| guid_canonical(s@, guid_source(k)) as u8));
    Some(raw)
}

/// An optional GUID: empty text means none; anything else must parse.
pub open spec fn optional_guid(s: Seq<char>) -> Result<Option<Seq<u8>>, ()> {
    if s.len() == 0 {
        Ok(None)
    } else {
        match guid_bytes(s) {
            Some(b) => Ok(Some(b)),
            None => Err(()),
        }
    }
}

pub struct DataAcc {
    pub disk: Option<Seq<u8>>,
    pub partition: Option<Seq<u8>>,
}

/// One entry of the data configuration; `None` when a value is not a
/// quoted string or not a valid GUID.
pub open spec fn data_step(a: DataAcc, e: (Seq<char>, Seq<char>, Seq<char>)) -> Option<DataAcc> {
    let (sec, key, value) = e;
    if sec == "data"@ && (key == "preferred_disk_guid"@ || key == "preferred_partition_guid"@) {
        match parse_string(value) {
            None => None,
            Some(text) => match optional_guid(text) {
                Err(()) => None,
                Ok(g) => if key == "preferred_disk_guid"@ {
                    Some(DataAcc { disk: g, ..a })
                } else {
                    Some(DataAcc { partition: g, ..a })
                },
            },
        }
    } else {
        Some(a)
    }
}

pub open spec fn data_fold(es: Seq<(Seq<char>, Seq<char>, Seq<char>)>, i: int, a: Option<DataAcc>) -> Option<DataAcc>
    decreases es.len() - i,
{
    if i < 0 || i >= es.len() {
        a
    } else {
        match a {
            None => None,
            Some(s) => data_fold(es, i + 1, data_step(s, es[i])),
        }
    }
}

pub open spec fn opt_guid_view(g: Option<[u8; 16]>) -> Option<Seq<u8>> {
    match g {
        Some(v) => Some(v@),
        None => None,
    }
}

/// What a data configuration text holds: `None` when it is not valid
/// UTF-8, a value is malformed, or only one of the two GUIDs is given.
pub open spec fn data_config_spec(bytes: Seq<u8>) -> Option<DataAcc> {
    match utf8_text(bytes) {
        None => None,
        Some(t) => match data_fold(config_entries(t), 0, Some(DataAcc { disk: None, partition: None })) {
            None => None,
            Some(a) => if a.disk is Some == a.partition is Some {
                Some(a)
            } else {
                None
            },
        },
    }
}

proof fn lemma_data_fold_none(es: Seq<(Seq<char>, Seq<char>, Seq<char>)>, i: int)
    ensures
        data_fold(es, i, None) is None,
    decreases es.len() - i,
{
    if 0 <= i < es.len() {
    }
}

impl DataConfig {
    /// Reads the data configuration; any defect gives `InvalidConfig`.
    pub fn parse(bytes: &[u8]) -> (res: Result<DataConfig, BootError>)
        ensures
            match data_config_spec(bytes@) {
                None => res == Err::<DataConfig, BootError>(BootError::InvalidConfig),
                Some(a) => res matches Ok(c) && opt_guid_view(c.preferred_disk_guid) == a.disk
                    && opt_guid_view(c.preferred_partition_guid) == a.partition,
            },
    {
        let text = match crate::text::utf8_to_string(bytes) {
            Some(t) => t,
            None => return Err(BootError::InvalidConfig),
        };
        let chars = crate::text::chars_of(text.as_str());
        let entries = crate::config_text::scan_config(chars.as_slice());
        let ghost es = entries_view(entries@);
        let mut disk: Option<[u8; 16]> = None;
        let mut partition: Option<[u8; 16]> = None;
        let mut i: usize = 0;
        while i < entries.len()
            invariant
                es == entries_view(entries@),
                utf8_text(bytes@) is Some,
                config_entries(utf8_text(bytes@)->0) == es,
                i <= entries@.len(),
                data_fold(es, 0, Some(DataAcc { disk: None, partition: None })) == data_fold(
                    es,
                    i as int,
                    Some(DataAcc { disk: opt_guid_view(disk), partition: opt_guid_view(partition) }),
                ),
            decreases entries@.len() - i,
        {
            let e = &entries[i];
            let ghost a0 = DataAcc { disk: opt_guid_view(disk), partition: opt_guid_view(partition) };
            proof {
                lemma_data_fold_none(es, i + 1);
                assert(es[i as int] == crate::config_text::entry_view(*e));
            }
            let is_data = chars_are(e.section.as_slice(), "data");
            let is_disk = chars_are(e.key.as_slice(), "preferred_disk_guid");
            let is_part = chars_are(e.key.as_slice(), "preferred_partition_guid");
            if is_data && (is_disk || is_part) {
                let text = match parse_string_value(e.value.as_slice()) {
                    Some(t) => t,
                    None => {
                        assert(data_fold(es, i as int, Some(a0)) is None);
                        return Err(BootError::InvalidConfig);
                    },
                };
                let g = if text.len() == 0 {
                    None
                } else {
                    match parse_guid(text.as_slice()) {
                        Some(g) => Some(g),
                        None => {
                            assert(data_fold(es, i as int, Some(a0)) is None);
                            return Err(BootError::InvalidConfig);
                        },
                    }
                };
                if is_disk {
                    disk = g;
                } else {
                    partition = g;
                }
            }
            i = i + 1;
        }
        if disk.is_some() != partition.is_some() {
            return Err(BootError::InvalidConfig);
        }
        Ok(DataConfig { preferred_disk_guid: disk, preferred_partition_guid: partition })
    }
}

/// The identity a partition is compared by.
pub open spec fn partition_key(p: Partition) -> (u64, u64, Seq<u8>, Seq<u8>, Seq<char>) {
    (p.first_lba, p.last_lba, p.partition_guid@, p.disk_guid@, p.label@)
}

fn guid_eq(a: &[u8; 16], b: &[u8; 16]) -> (res: bool)
    ensures
        res == (a@ == b@),
{
    let mut i: usize = 0;
    while i < 16
        invariant
            i <= 16,
            a@.len() == 16,
            b@.len() == 16,
            forall|j: int| 0 <= j < i ==> a@[j] == b@[j],
        decreases 16 - i,
    {
        if a[i] != b[i] {
            return false;
        }
        i = i + 1;
    }
    assert(a@ =~= b@);
    true
}

fn partition_eq(a: &Partition, b: &Partition) -> (res: bool)
    ensures
        res == (partition_key(*a) == partition_key(*b)),
{
    a.first_lba == b.first_lba && a.last_lba == b.last_lba && guid_eq(&a.partition_guid, &b.partition_guid)
        && guid_eq(&a.disk_guid, &b.disk_guid) && crate::text::str_eq(a.label.as_str(), b.label.as_str())
}

fn copy_partition(p: &Partition) -> (res: Partition)
    ensures
        partition_key(res) == partition_key(*p),
{
    Partition {
        first_lba: p.first_lba,
        last_lba: p.last_lba,
        partition_guid: p.partition_guid,
        disk_guid: p.disk_guid,
        label: p.label.clone(),
    }
}

pub open spec fn keys(v: Seq<Partition>) -> Seq<(u64, u64, Seq<u8>, Seq<u8>, Seq<char>)> {
    Seq::new(v.len(), |i: int| partition_key(v[i]))
}

/// The first occurrence of each partition, in order.
pub open spec fn unique_keys(v: Seq<(u64, u64, Seq<u8>, Seq<u8>, Seq<char>)>) -> Seq<(u64, u64, Seq<u8>, Seq<u8>, Seq<char>)>
    decreases v.len(),
{
    if v.len() == 0 {
        Seq::empty()
    } else {
        let u = unique_keys(v.drop_last());
        if u.contains(v.last()) {
            u
        } else {
            u.push(v.last())
        }
    }
}

/// A partition on disk `d` with partition GUID `p`.
pub open spec fn prefers(d: Seq<u8>, p: Seq<u8>) -> spec_fn((u64, u64, Seq<u8>, Seq<u8>, Seq<char>)) -> bool {
    |k: (u64, u64, Seq<u8>, Seq<u8>, Seq<char>)| k.3 == d && k.2 == p
}

/// The partition a preference singles out among `found`, and the result:
/// a preferred partition present exactly once is taken; present more than
/// once is ambiguous; otherwise the only partition found is taken, none is
/// missing and several are ambiguous.
pub open spec fn select_data_spec(
    preferred: Option<(Seq<u8>, Seq<u8>)>,
    found: Seq<(u64, u64, Seq<u8>, Seq<u8>, Seq<char>)>,
) -> (Option<(u64, u64, Seq<u8>, Seq<u8>, Seq<char>)>, DataStatus) {
    let matching = match preferred {
        Some((d, p)) => found.filter(prefers(d, p)),
        None => Seq::empty(),
    };
    if matching.len() == 1 {
        (Some(matching[0]), DataStatus::Found)
    } else if matching.len() > 1 {
        (None, DataStatus::Ambiguous)
    } else if found.len() == 0 {
        (None, DataStatus::Missing)
    } else if found.len() == 1 {
        (Some(found[0]), DataStatus::Found)
    } else {
        (None, DataStatus::Ambiguous)
    }
}

pub open spec fn preference(c: Option<DataConfig>) -> Option<(Seq<u8>, Seq<u8>)> {
    match c {
        Some(cfg) => match (cfg.preferred_disk_guid, cfg.preferred_partition_guid) {
            (Some(d), Some(p)) => Some((d@, p@)),
            _ => None,
        },
        None => None,
    }
}

/// Chooses the data partition among the `data` partitions found on all
/// disks (a partition seen on several disk handles counts once).
pub fn select_data_partition(config: Option<DataConfig>, found: &Vec<Partition>) -> (res: (Option<Partition>, DataStatus))
    ensures
        ({
            let (p, st) = select_data_spec(preference(config), unique_keys(keys(found@)));
            &&& res.1 == st
            &&& match p {
                Some(k) => res.0 matches Some(q) && partition_key(q) == k,
                None => res.0 is None,
            }
        }),
{
    reveal(Seq::filter);
    let mut candidates: Vec<Partition> = Vec::new();
    let mut i: usize = 0;
    while i < found.len()
        invariant
            i <= found@.len(),
            keys(candidates@) == unique_keys(keys(found@).subrange(0, i as int)),
        decreases found@.len() - i,
    {
        let ghost pre = keys(found@).subrange(0, i as int + 1);
        assert(pre.drop_last() =~= keys(found@).subrange(0, i as int));
        assert(pre.last() == partition_key(found@[i as int]));
        let mut seen = false;
        let mut j: usize = 0;
        while j < candidates.len()
            invariant
                i < found@.len(),
                j <= candidates@.len(),
                seen == exists|m: int| 0 <= m < j && keys(candidates@)[m] == partition_key(found@[i as int]),
            decreases candidates@.len() - j,
        {
            assert(keys(candidates@)[j as int] == partition_key(candidates@[j as int]));
            if partition_eq(&candidates[j], &found[i]) {
                seen = true;
            }
            j = j + 1;
        }
        if !seen {
            let ghost before = keys(candidates@);
            let c = copy_partition(&found[i]);
            candidates.push(c);
            assert(keys(candidates@) =~= before.push(partition_key(found@[i as int])));
        } else {
            assert(keys(candidates@).contains(partition_key(found@[i as int])));
        }
        i = i + 1;
    }
    assert(keys(found@).subrange(0, found@.len() as int) =~= keys(found@));
    let ghost u = keys(candidates@);
    if let Some(cfg) = config {
        if let (Some(d), Some(p)) = (cfg.preferred_disk_guid, cfg.preferred_partition_guid) {
            let mut matches: Vec<Partition> = Vec::new();
            let mut k: usize = 0;
            let ghost f = prefers(d@, p@);
            while k < candidates.len()
                invariant
                    u == keys(candidates@),
                    k <= u.len(),
                    f == prefers(d@, p@),
                    keys(matches@) == u.subrange(0, k as int).filter(f),
                decreases u.len() - k,
            {
                let ghost pre = u.subrange(0, k as int + 1);
                proof {
                    reveal(Seq::filter);
                }
                assert(pre.drop_last() =~= u.subrange(0, k as int));
                assert(u[k as int] == partition_key(candidates@[k as int]));
                assert(pre.last() == u[k as int]);
                if guid_eq(&candidates[k].disk_guid, &d) && guid_eq(&candidates[k].partition_guid, &p) {
                    let ghost before = keys(matches@);
                    let c = copy_partition(&candidates[k]);
                    matches.push(c);
                    assert(keys(matches@) =~= before.push(u[k as int]));
                    assert(pre.filter(f) == pre.drop_last().filter(f).push(pre.last()));
                } else {
                    assert(!f(pre.last()));
                    assert(pre.filter(f) == pre.drop_last().filter(f));
                }
                k = k + 1;
            }
            assert(u.subrange(0, u.len() as int) =~= u);
            assert(preference(config) == Some((d@, p@)));
            assert(keys(matches@) == u.filter(f));
            assert(keys(matches@).len() == matches@.len());
            if matches.len() == 1 {
                let ghost m0 = matches@[0];
                assert(keys(matches@)[0] == partition_key(m0));
                let m = matches.pop().unwrap();
                assert(m == m0);
                return (Some(m), DataStatus::Found);
            } else if matches.len() > 1 {
                return (None, DataStatus::Ambiguous);
            }
        }
    }
    assert(u.len() == candidates@.len());
    if candidates.len() == 0 {
        (None, DataStatus::Missing)
    } else if candidates.len() == 1 {
        let ghost c0 = candidates@[0];
        assert(u[0] == partition_key(c0));
        let c = candidates.pop().unwrap();
        assert(c == c0);
        (Some(c), DataStatus::Found)
    } else {
        (None, DataStatus::Ambiguous)
    }
}

} // verus!
