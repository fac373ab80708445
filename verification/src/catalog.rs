//! The boot catalog: every bootable System Image paired with its newest
//! compatible luna-init core and kernel, ordered newest first, plus the
//! recovery and factory environments and the default choice.

use vstd::prelude::*;
use crate::boot_target::{BootError, BootTarget, BootTargetView};
use crate::discovery::{
    BootStateConfig, BootTargetRef, ImageManifest, ImageRole, InitManifest, strings_view, utf8_text,
    init_fold, init_acc_start, init_manifest_valid, image_fold, image_acc_start, image_manifest_valid,
};
use crate::path::split_seq;
use crate::config_text::config_entries;
use crate::gpt::follows;
use crate::text::{chars_of, parse_unsigned, parse_unsigned_chars, split_chars, str_eq};

verus! {

/// One directory entry of the system partition.
#[derive(Clone, Debug, PartialEq, Eq)]
pub struct DirEntry {
    pub name: String,
    pub inode: u32,
    pub file_type: u8,
}

impl DirEntry {
    /// A directory (ext4 file type 2).
    pub fn is_dir(&self) -> (res: bool)
        ensures
            res == (self.file_type == 2),
    {
        self.file_type == 2
    }

    /// A regular file (ext4 file type 1, or 0 when the directory does not
    /// record types).
    pub fn is_file(&self) -> (res: bool)
        ensures
            res == (self.file_type == 1 || self.file_type == 0),
    {
        self.file_type == 1 || self.file_type == 0
    }
}

/// Numeric value of one version component; a component that is not a
/// number counts as 0.
pub open spec fn component_value(c: Seq<char>) -> nat {
    match parse_unsigned(c, 0xffff_ffff_ffff_ffff) {
        Some(v) => v,
        None => 0,
    }
}

/// The dot-separated components of a version, as numbers.
pub open spec fn version_key(s: Seq<char>) -> Seq<nat> {
    split_seq(s, '.').map_values(|c: Seq<char>| component_value(c))
}

/// Lexicographic order of component lists, a missing component sorting
/// first: -1, 0 or 1.
pub open spec fn key_order(a: Seq<nat>, b: Seq<nat>) -> int
    decreases a.len(),
{
    if a.len() == 0 && b.len() == 0 {
        0
    } else if a.len() == 0 {
        -1
    } else if b.len() == 0 {
        1
    } else if a[0] < b[0] {
        -1
    } else if a[0] > b[0] {
        1
    } else {
        key_order(a.drop_first(), b.drop_first())
    }
}

/// How version `a` compares with version `b`: -1, 0 or 1.
pub open spec fn version_order_spec(a: Seq<char>, b: Seq<char>) -> int {
    key_order(version_key(a), version_key(b))
}

/// Swapping the operands negates the order.
pub proof fn lemma_key_order_antisymmetric(a: Seq<nat>, b: Seq<nat>)
    ensures
        key_order(a, b) == -key_order(b, a),
        -1 <= key_order(a, b) <= 1,
    decreases a.len(),
{
    if a.len() > 0 && b.len() > 0 && a[0] == b[0] {
        lemma_key_order_antisymmetric(a.drop_first(), b.drop_first());
    }
}

/// "At least as new as" is transitive.
pub proof fn lemma_key_order_transitive(a: Seq<nat>, b: Seq<nat>, c: Seq<nat>)
    requires
        key_order(a, b) >= 0,
        key_order(b, c) >= 0,
    ensures
        key_order(a, c) >= 0,
    decreases a.len(),
{
    if a.len() > 0 && b.len() > 0 && c.len() > 0 && a[0] == b[0] && b[0] == c[0] {
        lemma_key_order_transitive(a.drop_first(), b.drop_first(), c.drop_first());
    }
}

/// Version order is antisymmetric and transitive, so newest-first sorting
/// is well defined.
pub proof fn lemma_version_order_laws(a: Seq<char>, b: Seq<char>, c: Seq<char>)
    ensures
        version_order_spec(a, b) == -version_order_spec(b, a),
        version_order_spec(a, a) == 0,
        version_order_spec(a, b) >= 0 && version_order_spec(b, c) >= 0 ==> version_order_spec(a, c)
            >= 0,
{
    lemma_key_order_antisymmetric(version_key(a), version_key(b));
    lemma_key_order_antisymmetric(version_key(a), version_key(a));
    if version_order_spec(a, b) >= 0 && version_order_spec(b, c) >= 0 {
        lemma_key_order_transitive(version_key(a), version_key(b), version_key(c));
    }
}

fn version_numbers(s: &str) -> (res: Vec<u64>)
    ensures
        res@.map_values(|v: u64| v as nat) == version_key(s@),
{
    let chars = chars_of(s);
    let pieces = split_chars(chars.as_slice(), '.');
    let ghost pv = pieces.deep_view();
    let mut out: Vec<u64> = Vec::new();
    let mut i: usize = 0;
    while i < pieces.len()
        invariant
            pv == pieces.deep_view(),
            pv == split_seq(s@, '.'),
            i <= pv.len(),
            out@.map_values(|v: u64| v as nat) == pv.subrange(0, i as int).map_values(
                |c: Seq<char>| component_value(c),
            ),
        decreases pv.len() - i,
    {
        let p = &pieces[i];
        assert(p@ == pv[i as int]);
        assert(p@.subrange(0, p@.len() as int) =~= p@);
        let v = match parse_unsigned_chars(p.as_slice(), 0, p.len(), u64::MAX) {
            Some(v) => v,
            None => 0,
        };
        assert(v as nat == component_value(pv[i as int]));
        let ghost before = out@;
        out.push(v);
        assert(out@.map_values(|v: u64| v as nat) =~= before.map_values(|v: u64| v as nat).push(v as nat));
        assert(pv.subrange(0, i as int + 1).map_values(|c: Seq<char>| component_value(c))
            =~= pv.subrange(0, i as int).map_values(|c: Seq<char>| component_value(c)).push(component_value(pv[i as int])));
        i = i + 1;
        assert(out@.map_values(|v: u64| v as nat) =~= pv.subrange(0, i as int).map_values(
            |c: Seq<char>| component_value(c),
        ));
    }
    assert(pv.subrange(0, pv.len() as int) =~= pv);
    out
}

/// Compares two versions: -1 when `a` is older, 0 when equal, 1 when newer.
pub fn version_order(a: &str, b: &str) -> (res: i8)
    ensures
        res as int == version_order_spec(a@, b@),
{
    let va = version_numbers(a);
    let vb = version_numbers(b);
    let ghost ka = version_key(a@);
    let ghost kb = version_key(b@);
    assert(ka.subrange(0, ka.len() as int) =~= ka);
    assert(kb.subrange(0, kb.len() as int) =~= kb);
    let mut i: usize = 0;
    loop
        invariant
            ka == version_key(a@),
            kb == version_key(b@),
            va@.map_values(|v: u64| v as nat) == ka,
            vb@.map_values(|v: u64| v as nat) == kb,
            i <= va@.len(),
            i <= vb@.len(),
            key_order(ka, kb) == key_order(ka.subrange(i as int, ka.len() as int), kb.subrange(i as int, kb.len() as int)),
        decreases va@.len() - i,
    {
        let ghost sa = ka.subrange(i as int, ka.len() as int);
        let ghost sb = kb.subrange(i as int, kb.len() as int);
        assert(ka.len() == va@.len());
        assert(kb.len() == vb@.len());
        if i == va.len() && i == vb.len() {
            return 0;
        }
        if i == va.len() {
            return -1;
        }
        if i == vb.len() {
            return 1;
        }
        assert(sa[0] == va@[i as int] as nat);
        assert(sb[0] == vb@[i as int] as nat);
        if va[i] < vb[i] {
            return -1;
        }
        if va[i] > vb[i] {
            return 1;
        }
        assert(sa.drop_first() =~= ka.subrange(i + 1, ka.len() as int));
        assert(sb.drop_first() =~= kb.subrange(i + 1, kb.len() as int));
        i = i + 1;
    }
}

/// A luna-init core found under `/cores`.
#[derive(Debug)]
pub struct InitRecord {
    pub version: String,
    pub init_path: String,
    pub manifest: InitManifest,
}

/// A kernel found under `/kernels`.
#[derive(Clone, Debug)]
pub struct KernelRecord {
    pub version: String,
    pub kernel_path: String,
}

/// `allowed` admits `version`: an exact match or the wildcard `*`.
pub open spec fn admits(allowed: Seq<Seq<char>>, version: Seq<char>) -> bool {
    exists|i: int| 0 <= i < allowed.len() && (allowed[i] == "*"@ || allowed[i] == version)
}

fn admits_exec(allowed: &Vec<String>, version: &String) -> (res: bool)
    ensures
        res == admits(strings_view(allowed@), version@),
{
    let mut i: usize = 0;
    while i < allowed.len()
        invariant
            i <= allowed@.len(),
            forall|j: int| 0 <= j < i ==> !(strings_view(allowed@)[j] == "*"@ || strings_view(allowed@)[j] == version@),
        decreases allowed@.len() - i,
    {
        let a = allowed[i].as_str();
        assert(strings_view(allowed@)[i as int] == allowed@[i as int]@);
        if str_eq(a, "*") || str_eq(a, version.as_str()) {
            return true;
        }
        i = i + 1;
    }
    false
}

/// The index picked among `versions` restricted to those `ok` admits: one
/// with the highest version, the last such one when several tie (as
/// `Iterator::max_by` picks); `None` when none is admitted.
pub open spec fn best_index(versions: Seq<Seq<char>>, ok: spec_fn(int) -> bool, r: Option<int>) -> bool {
    match r {
        None => forall|j: int| 0 <= j < versions.len() ==> !#[trigger] ok(j),
        Some(i) => {
            &&& 0 <= i < versions.len()
            &&& ok(i)
            &&& forall|j: int| 0 <= j < versions.len() && #[trigger] ok(j) ==> version_order_spec(versions[j], versions[i]) <= 0
            &&& forall|j: int| i < j < versions.len() && #[trigger] ok(j) ==> version_order_spec(versions[j], versions[i]) < 0
        },
    }
}

pub open spec fn init_versions(inits: Seq<InitRecord>) -> Seq<Seq<char>> {
    Seq::new(inits.len(), |i: int| inits[i].version@)
}

pub open spec fn kernel_versions(kernels: Seq<KernelRecord>) -> Seq<Seq<char>> {
    Seq::new(kernels.len(), |i: int| kernels[i].version@)
}

proof fn lemma_best_skip(vs: Seq<Seq<char>>, ok: spec_fn(int) -> bool, i: int, r: Option<int>)
    requires
        0 <= i < vs.len(),
        !ok(i),
        best_index(vs.subrange(0, i), ok, r),
    ensures
        best_index(vs.subrange(0, i + 1), ok, r),
{
    let p = vs.subrange(0, i);
    let s = vs.subrange(0, i + 1);
    assert forall|j: int| 0 <= j < i implies #[trigger] s[j] == p[j] by {}
}

proof fn lemma_best_first(vs: Seq<Seq<char>>, ok: spec_fn(int) -> bool, i: int)
    requires
        0 <= i < vs.len(),
        ok(i),
        best_index(vs.subrange(0, i), ok, None),
    ensures
        best_index(vs.subrange(0, i + 1), ok, Some(i)),
{
    lemma_version_order_laws(vs[i], vs[i], vs[i]);
}

proof fn lemma_best_replace(vs: Seq<Seq<char>>, ok: spec_fn(int) -> bool, b: int, i: int)
    requires
        0 <= i < vs.len(),
        ok(i),
        best_index(vs.subrange(0, i), ok, Some(b)),
        version_order_spec(vs[i], vs[b]) >= 0,
    ensures
        best_index(vs.subrange(0, i + 1), ok, Some(i)),
{
    let p = vs.subrange(0, i);
    let s = vs.subrange(0, i + 1);
    assert forall|j: int| 0 <= j < s.len() && ok(j) implies version_order_spec(s[j], s[i]) <= 0 by {
        lemma_version_order_laws(vs[i], vs[b], vs[j]);
        lemma_version_order_laws(vs[j], vs[i], vs[i]);
        lemma_version_order_laws(vs[i], vs[j], vs[b]);
        lemma_version_order_laws(vs[b], vs[j], vs[i]);
        if j < i {
            assert(p[j] == vs[j]);
            assert(p[b] == vs[b]);
            assert(version_order_spec(vs[j], vs[b]) <= 0);
        }
    }
}

proof fn lemma_best_keep(vs: Seq<Seq<char>>, ok: spec_fn(int) -> bool, b: int, i: int)
    requires
        0 <= i < vs.len(),
        best_index(vs.subrange(0, i), ok, Some(b)),
        version_order_spec(vs[i], vs[b]) < 0,
    ensures
        best_index(vs.subrange(0, i + 1), ok, Some(b)),
{
    let p = vs.subrange(0, i);
    let s = vs.subrange(0, i + 1);
    assert forall|j: int| 0 <= j < i implies #[trigger] s[j] == p[j] by {}
}

/// Picks, among `versions`, the newest one that `allowed` admits (the last
/// of equally new ones).
pub fn pick_newest(allowed: &Vec<String>, versions: &Vec<String>) -> (res: Option<usize>)
    ensures
        best_index(
            strings_view(versions@),
            |j: int| admits(strings_view(allowed@), strings_view(versions@)[j]),
            match res {
                Some(i) => Some(i as int),
                None => None,
            },
        ),
{
    let ghost vs = strings_view(versions@);
    let ghost ok = |j: int| admits(strings_view(allowed@), strings_view(versions@)[j]);
    let mut best: Option<usize> = None;
    let mut i: usize = 0;
    while i < versions.len()
        invariant
            vs == strings_view(versions@),
            ok == (|j: int| admits(strings_view(allowed@), strings_view(versions@)[j])),
            i <= versions@.len(),
            best_index(vs.subrange(0, i as int), ok, match best { Some(b) => Some(b as int), None => None }),
        decreases versions@.len() - i,
    {
        assert(vs[i as int] == versions@[i as int]@);
        if admits_exec(allowed, &versions[i]) {
            match best {
                None => {
                    proof {
                        lemma_best_first(vs, ok, i as int);
                    }
                    best = Some(i);
                },
                Some(b) => {
                    assert(vs[b as int] == versions@[b as int]@);
                    let o = version_order(versions[i].as_str(), versions[b].as_str());
                    if o >= 0 {
                        proof {
                            lemma_best_replace(vs, ok, b as int, i as int);
                        }
                        best = Some(i);
                    } else {
                        proof {
                            lemma_best_keep(vs, ok, b as int, i as int);
                        }
                    }
                },
            }
        } else {
            proof {
                lemma_best_skip(vs, ok, i as int, match best { Some(b) => Some(b as int), None => None });
            }
        }
        i = i + 1;
    }
    assert(vs.subrange(0, vs.len() as int) =~= vs);
    best
}

/// Picks the newest luna-init core the image admits.
pub fn select_init(manifest: &ImageManifest, inits: &Vec<InitRecord>) -> (res: Option<usize>)
    ensures
        best_index(
            init_versions(inits@),
            |j: int| admits(strings_view(manifest.compatible_inits@), init_versions(inits@)[j]),
            match res {
                Some(i) => Some(i as int),
                None => None,
            },
        ),
{
    let mut versions: Vec<String> = Vec::new();
    let mut i: usize = 0;
    while i < inits.len()
        invariant
            i <= inits@.len(),
            strings_view(versions@) == init_versions(inits@).subrange(0, i as int),
        decreases inits@.len() - i,
    {
        let ghost before = strings_view(versions@);
        let c = inits[i].version.clone();
        versions.push(c);
        assert(strings_view(versions@) =~= before.push(c@));
        i = i + 1;
        assert(strings_view(versions@) =~= init_versions(inits@).subrange(0, i as int));
    }
    assert(init_versions(inits@).subrange(0, inits@.len() as int) =~= init_versions(inits@));
    pick_newest(&manifest.compatible_inits, &versions)
}

/// Picks the newest kernel the init core admits.
pub fn select_kernel(manifest: &InitManifest, kernels: &Vec<KernelRecord>) -> (res: Option<usize>)
    ensures
        best_index(
            kernel_versions(kernels@),
            |j: int| admits(strings_view(manifest.compatible_kernels@), kernel_versions(kernels@)[j]),
            match res {
                Some(i) => Some(i as int),
                None => None,
            },
        ),
{
    let mut versions: Vec<String> = Vec::new();
    let mut i: usize = 0;
    while i < kernels.len()
        invariant
            i <= kernels@.len(),
            strings_view(versions@) == kernel_versions(kernels@).subrange(0, i as int),
        decreases kernels@.len() - i,
    {
        let ghost before = strings_view(versions@);
        let c = kernels[i].version.clone();
        versions.push(c);
        assert(strings_view(versions@) =~= before.push(c@));
        i = i + 1;
        assert(strings_view(versions@) =~= kernel_versions(kernels@).subrange(0, i as int));
    }
    assert(kernel_versions(kernels@).subrange(0, kernels@.len() as int) =~= kernel_versions(kernels@));
    pick_newest(&manifest.compatible_kernels, &versions)
}

/// The path of the init core of version `v`: `/cores/luna-<v>.init`.
pub open spec fn core_path(v: Seq<char>) -> Seq<char> {
    "/cores/luna-"@ + v + ".init"@
}

/// A target is the one a reference names: same image version, init core
/// and kernel id.
pub open spec fn target_matches_spec(t: BootTargetView, r: Option<(Seq<char>, Seq<char>, Seq<char>)>) -> bool {
    match r {
        None => false,
        Some((image, init, kernel)) => t.system_version == image && t.init_path == core_path(init)
            && t.kernel_id == kernel,
    }
}

/// A reference names a whole (image, init core, kernel) tuple: a target
/// matches it exactly when its image version, its init path
/// (`/cores/luna-<init>.init`) and its kernel id are the reference's; no
/// target matches the absent reference.
pub proof fn lemma_target_matches_whole_tuple(t: BootTargetView, image: Seq<char>, init: Seq<char>, kernel: Seq<char>)
    ensures
        target_matches_spec(t, Some((image, init, kernel))) ==> t.kernel_id == kernel,
        target_matches_spec(t, Some((image, init, kernel))) ==> t.system_version == image,
        target_matches_spec(t, Some((image, init, kernel))) ==> t.init_path == "/cores/luna-"@ + init + ".init"@,
        t.system_version == image && t.init_path == "/cores/luna-"@ + init + ".init"@ && t.kernel_id == kernel
            ==> target_matches_spec(t, Some((image, init, kernel))),
        !target_matches_spec(t, None),
{
}

/// Two targets that differ only in their kernel are never both named by
/// one reference.
pub proof fn lemma_reference_tells_kernels_apart(t: BootTargetView, u: BootTargetView, r: (Seq<char>, Seq<char>, Seq<char>))
    requires
        t.kernel_id != u.kernel_id,
    ensures
        !(target_matches_spec(t, Some(r)) && target_matches_spec(u, Some(r))),
{
}

pub open spec fn ref_triple(r: &BootTargetRef) -> (Seq<char>, Seq<char>, Seq<char>) {
    (r.image@, r.init@, r.kernel@)
}

/// Whether `target` is the one `reference` names.
pub fn target_matches(target: &BootTarget, reference: Option<&BootTargetRef>) -> (res: bool)
    ensures
        res == target_matches_spec(
            target@,
            match reference {
                Some(r) => Some(ref_triple(r)),
                None => None,
            },
        ),
        reference is None ==> !res,
        reference matches Some(r) ==> (res <==> (target.system_version@ == r.image@ && target.init_path@
            == "/cores/luna-"@ + r.init@ + ".init"@ && target.kernel_id@ == r.kernel@)),
{
    match reference {
        None => false,
        Some(r) => {
            let mut path = String::from_str("/cores/luna-");
            path.append(r.init.as_str());
            path.append(".init");
            str_eq(target.system_version.as_str(), r.image.as_str()) && str_eq(
                target.init_path.as_str(),
                path.as_str(),
            ) && str_eq(target.kernel_id.as_str(), r.kernel.as_str())
        },
    }
}

pub open spec fn views(v: Seq<BootTarget>) -> Seq<BootTargetView> {
    Seq::new(v.len(), |i: int| v[i]@)
}

/// Index of the first target a reference names.
pub open spec fn first_match(v: Seq<BootTargetView>, r: (Seq<char>, Seq<char>, Seq<char>), res: Option<int>) -> bool {
    match res {
        None => forall|j: int| 0 <= j < v.len() ==> !#[trigger] target_matches_spec(v[j], Some(r)),
        Some(i) => 0 <= i < v.len() && target_matches_spec(v[i], Some(r)) && forall|j: int|
            0 <= j < i ==> !#[trigger] target_matches_spec(v[j], Some(r)),
    }
}

/// Index of the first target from `i` on that a reference names.
pub open spec fn find_from(v: Seq<BootTargetView>, r: (Seq<char>, Seq<char>, Seq<char>), i: int) -> Option<int>
    decreases v.len() - i,
{
    if i < 0 || i >= v.len() {
        None
    } else if target_matches_spec(v[i], Some(r)) {
        Some(i)
    } else {
        find_from(v, r, i + 1)
    }
}

proof fn lemma_find_from(v: Seq<BootTargetView>, r: (Seq<char>, Seq<char>, Seq<char>), i: int)
    requires
        0 <= i <= v.len(),
        forall|j: int| 0 <= j < i ==> !#[trigger] target_matches_spec(v[j], Some(r)),
    ensures
        first_match(v, r, find_from(v, r, i)),
    decreases v.len() - i,
{
    if i < v.len() && !target_matches_spec(v[i], Some(r)) {
        lemma_find_from(v, r, i + 1);
    }
}

proof fn lemma_first_match_unique(v: Seq<BootTargetView>, r: (Seq<char>, Seq<char>, Seq<char>), a: Option<int>)
    requires
        first_match(v, r, a),
    ensures
        forall|b: Option<int>| first_match(v, r, b) ==> b == a,
{
    assert forall|b: Option<int>| first_match(v, r, b) implies b == a by {
        match (a, b) {
            (Some(x), Some(y)) => {
                if x < y {
                    assert(!target_matches_spec(v[x], Some(r)));
                } else if y < x {
                    assert(!target_matches_spec(v[y], Some(r)));
                }
            },
            (Some(x), None) => {
                assert(!target_matches_spec(v[x], Some(r)));
            },
            (None, Some(y)) => {
                assert(!target_matches_spec(v[y], Some(r)));
            },
            (None, None) => {},
        }
    }
}

/// The target a reference names: among the normal targets first, then the
/// recovery environment, then the factory environment.
pub open spec fn ref_lookup(c: &BootCatalog, r: (Seq<char>, Seq<char>, Seq<char>)) -> Option<BootTargetView> {
    let v = views(c.targets@);
    match find_from(v, r, 0) {
        Some(i) => Some(v[i]),
        None => if c.recovery matches Some(t) && target_matches_spec(t@, Some(r)) {
            opt_target_view(c.recovery)
        } else if c.factory matches Some(t) && target_matches_spec(t@, Some(r)) {
            opt_target_view(c.factory)
        } else {
            None
        },
    }
}

/// Finds the first target that `reference` names.
pub fn position_of(targets: &Vec<BootTarget>, reference: &BootTargetRef) -> (res: Option<usize>)
    ensures
        first_match(
            views(targets@),
            ref_triple(reference),
            match res {
                Some(i) => Some(i as int),
                None => None,
            },
        ),
{
    let mut i: usize = 0;
    while i < targets.len()
        invariant
            i <= targets@.len(),
            forall|j: int| 0 <= j < i ==> !#[trigger] target_matches_spec(views(targets@)[j], Some(ref_triple(reference))),
        decreases targets@.len() - i,
    {
        assert(views(targets@)[i as int] == targets@[i as int]@);
        if target_matches(&targets[i], Some(reference)) {
            return Some(i);
        }
        i = i + 1;
    }
    None
}

/// Newest first: no target is older than one after it.
pub open spec fn newest_first(v: Seq<BootTargetView>) -> bool {
    forall|i: int, j: int|
        0 <= i < j < v.len() ==> version_order_spec(#[trigger] v[i].system_version, #[trigger] v[j].system_version) >= 0
}

/// Orders targets newest first (a stable insertion sort): the result is
/// ordered and holds exactly the given targets.
pub fn sort_newest_first(items: Vec<BootTarget>) -> (res: Vec<BootTarget>)
    ensures
        newest_first(views(res@)),
        res@.to_multiset() == items@.to_multiset(),
{
    broadcast use vstd::multiset::group_multiset_axioms;
    broadcast use vstd::multiset::group_multiset_properties;

    let mut rest = items;
    let mut out: Vec<BootTarget> = Vec::new();
    let ghost all = rest@;
    proof {
        vstd::seq_lib::to_multiset_len(out@);
        assert(out@.to_multiset() =~= vstd::multiset::Multiset::empty());
        assert(vstd::multiset::Multiset::<BootTarget>::empty().add(all.to_multiset()) =~= all.to_multiset());
    }
    while rest.len() > 0
        invariant
            newest_first(views(out@)),
            out@.to_multiset().add(rest@.to_multiset()) == all.to_multiset(),
        decreases rest@.len(),
    {
        let ghost before_rest = rest@;
        let ghost before_out = out@;
        let x = rest.pop().unwrap();
        proof {
            assert(before_rest =~= rest@.push(x));
            vstd::seq_lib::to_multiset_build(rest@, x);
        }
        let mut k: usize = 0;
        while k < out.len() && version_order(out[k].system_version.as_str(), x.system_version.as_str()) > 0
            invariant
                k <= out@.len(),
                before_out == out@,
                forall|j: int| 0 <= j < k ==> version_order_spec(#[trigger] out@[j].system_version@, x.system_version@) > 0,
            decreases out@.len() - k,
        {
            k = k + 1;
        }
        let ghost xv = x;
        out.insert(k, x);
        proof {
            vstd::seq_lib::to_multiset_insert(before_out, k as int, xv);
            assert(out@.to_multiset().add(rest@.to_multiset()) =~= before_out.to_multiset().add(
                before_rest.to_multiset(),
            ));
            let v = views(out@);
            let bv = views(before_out);
            assert forall|i: int, j: int| 0 <= i < j < v.len() implies version_order_spec(
                #[trigger] v[i].system_version,
                #[trigger] v[j].system_version,
            ) >= 0 by {
                if j < k {
                    assert(v[i] == bv[i] && v[j] == bv[j]);
                } else if j == k {
                    assert(v[i] == bv[i]);
                    assert(v[j] == xv@);
                    assert(version_order_spec(before_out[i].system_version@, xv.system_version@) > 0);
                } else if i == k {
                    assert(v[i] == xv@);
                    assert(v[j] == bv[j - 1]);
                    if k < before_out.len() {
                        let kk = k as int;
                        assert(bv[kk] == before_out[kk]@);
                        assert(version_order_spec(bv[kk].system_version, xv.system_version@) <= 0);
                        lemma_version_order_laws(bv[kk].system_version, xv.system_version@, bv[j - 1].system_version);
                        lemma_version_order_laws(xv.system_version@, bv[kk].system_version, bv[j - 1].system_version);
                        if j - 1 > kk {
                            assert(version_order_spec(bv[kk].system_version, bv[j - 1].system_version) >= 0);
                        }
                    }
                } else if i < k {
                    assert(v[i] == bv[i] && v[j] == bv[j - 1]);
                    if i < j - 1 {
                    } else {
                    }
                    assert(version_order_spec(bv[i].system_version, xv.system_version@) > 0);
                    if j - 1 > i {
                    }
                } else {
                    assert(v[i] == bv[i - 1] && v[j] == bv[j - 1]);
                }
            }
        }
    }
    proof {
        vstd::seq_lib::to_multiset_len(rest@);
        assert(rest@.to_multiset() =~= vstd::multiset::Multiset::empty());
        assert(out@.to_multiset().add(vstd::multiset::Multiset::empty()) =~= out@.to_multiset());
    }
    out
}

/// What boot discovery found.
#[derive(Debug)]
pub struct BootCatalog {
    /// Normal targets, newest first.
    pub targets: Vec<BootTarget>,
    pub recovery: Option<BootTarget>,
    pub factory: Option<BootTarget>,
    /// Index of the target booted by default.
    pub default_target: usize,
    pub boot_state: BootStateConfig,
}

pub open spec fn opt_target_view(t: Option<BootTarget>) -> Option<BootTargetView> {
    match t {
        Some(v) => Some(v@),
        None => None,
    }
}

fn dup_opt(t: &Option<BootTarget>) -> (res: Option<BootTarget>)
    ensures
        opt_target_view(res) == opt_target_view(*t),
{
    match t {
        Some(v) => Some(v.duplicate()),
        None => None,
    }
}

/// The candidate a reference selects: the first one it names, else the
/// first candidate.
pub open spec fn pick_spec(c: Seq<BootTargetView>, r: Option<(Seq<char>, Seq<char>, Seq<char>)>, res: Option<BootTargetView>) -> bool {
    if r is Some && exists|j: int| 0 <= j < c.len() && #[trigger] target_matches_spec(c[j], r) {
        exists|i: int| first_match(c, r->0, Some(i)) && res == Some(c[i])
    } else if c.len() > 0 {
        res == Some(c[0])
    } else {
        res is None
    }
}

/// Picks the candidate `reference` names, else the first candidate.
pub fn pick_candidate(candidates: &Vec<BootTarget>, reference: &Option<BootTargetRef>) -> (res: Option<BootTarget>)
    ensures
        pick_spec(
            views(candidates@),
            match reference {
                Some(r) => Some(ref_triple(r)),
                None => None,
            },
            opt_target_view(res),
        ),
{
    let ghost r = match reference {
        Some(r) => Some(ref_triple(r)),
        None => None,
    };
    if let Some(rf) = reference {
        match position_of(candidates, rf) {
            Some(i) => {
                assert(views(candidates@)[i as int] == candidates@[i as int]@);
                return Some(candidates[i].duplicate());
            },
            None => {},
        }
    }
    if candidates.len() > 0 {
        assert(views(candidates@)[0] == candidates@[0]@);
        Some(candidates[0].duplicate())
    } else {
        None
    }
}

/// Index of the default target: the first one the current reference
/// names, else 0.
pub open spec fn default_index_spec(v: Seq<BootTargetView>, current: Option<(Seq<char>, Seq<char>, Seq<char>)>, d: int) -> bool {
    if current is Some && exists|j: int| 0 <= j < v.len() && #[trigger] target_matches_spec(v[j], current) {
        first_match(v, current->0, Some(d))
    } else {
        d == 0
    }
}

pub open spec fn opt_ref(r: Option<BootTargetRef>) -> Option<(Seq<char>, Seq<char>, Seq<char>)> {
    match r {
        Some(t) => Some(ref_triple(&t)),
        None => None,
    }
}

impl BootCatalog {
    /// A catalog with nothing in it.
    pub fn empty() -> (res: BootCatalog)
        ensures
            res.targets@.len() == 0,
            res.recovery is None,
            res.factory is None,
            res.default_target == 0,
            res.boot_state.format == 0 && res.boot_state.generation == 0 && res.boot_state.attempt_id == 0
                && !res.boot_state.previous_attempt_failed && res.boot_state.fallback_depth == 0
                && res.boot_state.failure_code == 0,
            res.boot_state.current is None && res.boot_state.fallback is None
                && res.boot_state.recovery is None && res.boot_state.factory is None,
    {
        BootCatalog {
            targets: Vec::new(),
            recovery: None,
            factory: None,
            default_target: 0,
            boot_state: BootStateConfig::empty(),
        }
    }

    /// Orders the candidates newest first and makes the choices: the
    /// recovery and factory environments the boot state names (else the
    /// newest), and the default target the boot state names (else the
    /// newest). Fails only when there is nothing at all to boot.
    pub fn assemble(
        targets: Vec<BootTarget>,
        recovery_candidates: Vec<BootTarget>,
        factory_candidates: Vec<BootTarget>,
        boot_state: BootStateConfig,
    ) -> (res: Result<BootCatalog, BootError>)
        ensures
            (targets@.len() == 0 && recovery_candidates@.len() == 0 && factory_candidates@.len() == 0)
                ==> res == Err::<BootCatalog, BootError>(BootError::NoBootTargets),
            !(targets@.len() == 0 && recovery_candidates@.len() == 0 && factory_candidates@.len() == 0)
                ==> (res matches Ok(c) && {
                &&& c.targets@.to_multiset() == targets@.to_multiset()
                &&& newest_first(views(c.targets@))
                &&& exists|rs: Seq<BootTarget>|
                    rs.to_multiset() == recovery_candidates@.to_multiset() && newest_first(views(rs))
                        && pick_spec(views(rs), opt_ref(boot_state.recovery), opt_target_view(c.recovery))
                &&& exists|fs: Seq<BootTarget>|
                    fs.to_multiset() == factory_candidates@.to_multiset() && newest_first(views(fs))
                        && pick_spec(views(fs), opt_ref(boot_state.factory), opt_target_view(c.factory))
                &&& default_index_spec(views(c.targets@), opt_ref(boot_state.current), c.default_target as int)
                &&& c.boot_state == boot_state
            }),
    {
        let nothing = targets.len() == 0 && recovery_candidates.len() == 0 && factory_candidates.len() == 0;
        let targets = sort_newest_first(targets);
        let recovery_sorted = sort_newest_first(recovery_candidates);
        let factory_sorted = sort_newest_first(factory_candidates);
        proof {
            vstd::seq_lib::to_multiset_len(targets@);
            vstd::seq_lib::to_multiset_len(recovery_sorted@);
            vstd::seq_lib::to_multiset_len(factory_sorted@);
        }
        let recovery = pick_candidate(&recovery_sorted, &boot_state.recovery);
        let factory = pick_candidate(&factory_sorted, &boot_state.factory);
        let default_target = match &boot_state.current {
            Some(r) => match position_of(&targets, r) {
                Some(i) => i,
                None => 0,
            },
            None => 0,
        };
        if nothing {
            return Err(BootError::NoBootTargets);
        }
        Ok(BootCatalog { targets, recovery, factory, default_target, boot_state })
    }

    /// The target a reference names: among the normal targets first, then
    /// the recovery environment, then the factory environment.
    pub fn target_for_ref(&self, reference: &BootTargetRef) -> (res: Option<BootTarget>)
        ensures
            opt_target_view(res) == ref_lookup(self, ref_triple(reference)),
            ({
                let r = ref_triple(reference);
                let v = views(self.targets@);
                if exists|j: int| 0 <= j < v.len() && #[trigger] target_matches_spec(v[j], Some(r)) {
                    exists|i: int| first_match(v, r, Some(i)) && opt_target_view(res) == Some(v[i])
                } else if self.recovery matches Some(t) && target_matches_spec(t@, Some(r)) {
                    opt_target_view(res) == opt_target_view(self.recovery)
                } else if self.factory matches Some(t) && target_matches_spec(t@, Some(r)) {
                    opt_target_view(res) == opt_target_view(self.factory)
                } else {
                    res is None
                }
            }),
    {
        proof {
            lemma_find_from(views(self.targets@), ref_triple(reference), 0);
            lemma_first_match_unique(views(self.targets@), ref_triple(reference), find_from(views(self.targets@), ref_triple(reference), 0));
        }
        match position_of(&self.targets, reference) {
            Some(i) => {
                assert(views(self.targets@)[i as int] == self.targets@[i as int]@);
                return Some(self.targets[i].duplicate());
            },
            None => {},
        }
        if let Some(t) = &self.recovery {
            if target_matches(t, Some(reference)) {
                return dup_opt(&self.recovery);
            }
        }
        if let Some(t) = &self.factory {
            if target_matches(t, Some(reference)) {
                return dup_opt(&self.factory);
            }
        }
        None
    }
}

/// A directory listing by its entries' names, inode numbers and types.
pub open spec fn listing_view(v: Seq<DirEntry>) -> Seq<(Seq<char>, u32, u8)> {
    Seq::new(v.len(), |i: int| (v[i].name@, v[i].inode, v[i].file_type))
}

pub open spec fn listing_result(r: Result<Vec<DirEntry>, BootError>) -> Result<Seq<(Seq<char>, u32, u8)>, BootError> {
    match r {
        Ok(v) => Ok(listing_view(v@)),
        Err(e) => Err(e),
    }
}

pub open spec fn contents_result(r: Result<Vec<u8>, BootError>) -> Result<Seq<u8>, BootError> {
    match r {
        Ok(v) => Ok(v@),
        Err(e) => Err(e),
    }
}

/// Read access to the system partition, as the boot loader's filesystem
/// driver offers it. The partition is modelled by what each directory
/// lists, what each file holds and whether a file exists; reads leave the
/// model as it is, and a read gives what the model says whenever the
/// storage is reliable (and a listing or contents read whenever it
/// succeeds; an existence check whenever it finds the file).
pub trait SystemFiles {
    spec fn spec_listing(&self, path: Seq<char>) -> Result<Seq<(Seq<char>, u32, u8)>, BootError>;

    spec fn spec_contents(&self, path: Seq<char>) -> Result<Seq<u8>, BootError>;

    spec fn spec_exists(&self, path: Seq<char>) -> Result<bool, BootError>;

    spec fn spec_files_reliable(&self) -> bool;

    /// The entries of a directory.
    fn read_dir(&mut self, path: &str) -> (res: Result<Vec<DirEntry>, BootError>)
        ensures
            final(self).spec_files_reliable() == old(self).spec_files_reliable(),
            forall|q: Seq<char>| #[trigger] final(self).spec_listing(q) == old(self).spec_listing(q),
            forall|q: Seq<char>| #[trigger] final(self).spec_contents(q) == old(self).spec_contents(q),
            forall|q: Seq<char>| #[trigger] final(self).spec_exists(q) == old(self).spec_exists(q),
            follows(listing_result(res), old(self).spec_listing(path@), old(self).spec_files_reliable());

    /// The contents of a file.
    fn read_file(&mut self, path: &str) -> (res: Result<Vec<u8>, BootError>)
        ensures
            final(self).spec_files_reliable() == old(self).spec_files_reliable(),
            forall|q: Seq<char>| #[trigger] final(self).spec_listing(q) == old(self).spec_listing(q),
            forall|q: Seq<char>| #[trigger] final(self).spec_contents(q) == old(self).spec_contents(q),
            forall|q: Seq<char>| #[trigger] final(self).spec_exists(q) == old(self).spec_exists(q),
            follows(contents_result(res), old(self).spec_contents(path@), old(self).spec_files_reliable());

    /// Whether a file exists.
    fn file_exists(&mut self, path: &str) -> (res: Result<bool, BootError>)
        ensures
            final(self).spec_files_reliable() == old(self).spec_files_reliable(),
            forall|q: Seq<char>| #[trigger] final(self).spec_listing(q) == old(self).spec_listing(q),
            forall|q: Seq<char>| #[trigger] final(self).spec_contents(q) == old(self).spec_contents(q),
            forall|q: Seq<char>| #[trigger] final(self).spec_exists(q) == old(self).spec_exists(q),
            old(self).spec_files_reliable() ==> res == old(self).spec_exists(path@),
            res == Ok::<bool, BootError>(true) ==> old(self).spec_exists(path@) == Ok::<bool, BootError>(true);
}


/// The index of the first entry from `i` on whose key is `q`, if any.
pub open spec fn first_key<T>(v: Seq<(String, T)>, q: Seq<char>, i: int) -> Option<int>
    decreases v.len() - i,
{
    if i < 0 || i >= v.len() {
        None
    } else if v[i].0@ == q {
        Some(i)
    } else {
        first_key(v, q, i + 1)
    }
}

pub(crate) proof fn lemma_first_key<T>(v: Seq<(String, T)>, q: Seq<char>, j: int)
    requires
        0 <= j,
    ensures
        first_key(v, q, j) matches Some(i) ==> j <= i < v.len() && v[i].0@ == q,
    decreases v.len() - j,
{
    if j < v.len() && v[j].0@ != q {
        lemma_first_key(v, q, j + 1);
    }
}

pub(crate) fn find_key<T>(v: &Vec<(String, T)>, q: &str) -> (res: Option<usize>)
    ensures
        match first_key(v@, q@, 0) {
            Some(i) => res matches Some(r) && r as int == i,
            None => res is None,
        },
        res matches Some(i) ==> i < v@.len(),
{
    proof {
        lemma_first_key(v@, q@, 0);
    }
    let mut i: usize = 0;
    while i < v.len()
        invariant
            i <= v@.len(),
            first_key(v@, q@, 0) == first_key(v@, q@, i as int),
        decreases v@.len() - i,
    {
        if str_eq(v[i].0.as_str(), q) {
            return Some(i);
        }
        i = i + 1;
    }
    None
}

/// A system partition held in memory: directory listings and file
/// contents by path. A path it does not hold is a `FilesystemError`; a
/// file exists when its contents are held.
pub struct MemoryFiles {
    dirs: Vec<(String, Vec<DirEntry>)>,
    files: Vec<(String, Vec<u8>)>,
}

impl MemoryFiles {
    /// Nothing held.
    pub fn new() -> (res: MemoryFiles)
        ensures
            forall|q: Seq<char>| #[trigger] res.spec_listing(q) == Err::<Seq<(Seq<char>, u32, u8)>, BootError>(BootError::FilesystemError),
            forall|q: Seq<char>| #[trigger] res.spec_contents(q) == Err::<Seq<u8>, BootError>(BootError::FilesystemError),
    {
        MemoryFiles { dirs: Vec::new(), files: Vec::new() }
    }

    /// Holds `entries` as the listing of `path` (in place of any before).
    pub fn set_dir(&mut self, path: String, entries: Vec<DirEntry>)
        ensures
            final(self).spec_listing(path@) == Ok::<Seq<(Seq<char>, u32, u8)>, BootError>(listing_view(entries@)),
    {
        let ghost key = path@;
        let ghost view = listing_view(entries@);
        let mut dirs: Vec<(String, Vec<DirEntry>)> = Vec::new();
        dirs.push((path, entries));
        let mut i: usize = 0;
        while i < self.dirs.len()
            invariant
                dirs@.len() == i + 1,
                dirs@[0].0@ == key,
                listing_view(dirs@[0].1@) == view,
            decreases self.dirs@.len() - i,
        {
            let ghost before = dirs@;
            let (name, listing) = (self.dirs[i].0.clone(), self.dirs[i].1.clone());
            dirs.push((name, listing));
            assert(dirs@[0] == before[0]);
            i = i + 1;
        }
        self.dirs = dirs;
        assert(first_key(self.dirs@, key, 0) == Some(0int));
    }

    /// Holds `bytes` as the contents of `path` (in place of any before).
    pub fn add_file(&mut self, path: String, bytes: Vec<u8>)
        ensures
            final(self).spec_contents(path@) == Ok::<Seq<u8>, BootError>(bytes@),
    {
        let ghost key = path@;
        let ghost data = bytes@;
        let mut files: Vec<(String, Vec<u8>)> = Vec::new();
        files.push((path, bytes));
        let mut i: usize = 0;
        while i < self.files.len()
            invariant
                files@.len() == i + 1,
                files@[0].0@ == key,
                files@[0].1@ == data,
            decreases self.files@.len() - i,
        {
            let ghost before = files@;
            let (name, contents) = (self.files[i].0.clone(), self.files[i].1.clone());
            files.push((name, contents));
            assert(files@[0] == before[0]);
            i = i + 1;
        }
        self.files = files;
        assert(first_key(self.files@, key, 0) == Some(0int));
    }
}

impl SystemFiles for MemoryFiles {
    closed spec fn spec_listing(&self, path: Seq<char>) -> Result<Seq<(Seq<char>, u32, u8)>, BootError> {
        match first_key(self.dirs@, path, 0) {
            Some(i) => Ok(listing_view(self.dirs@[i].1@)),
            None => Err(BootError::FilesystemError),
        }
    }

    closed spec fn spec_contents(&self, path: Seq<char>) -> Result<Seq<u8>, BootError> {
        match first_key(self.files@, path, 0) {
            Some(i) => Ok(self.files@[i].1@),
            None => Err(BootError::FilesystemError),
        }
    }

    closed spec fn spec_exists(&self, path: Seq<char>) -> Result<bool, BootError> {
        Ok(first_key(self.files@, path, 0) is Some)
    }

    closed spec fn spec_files_reliable(&self) -> bool {
        true
    }

    fn read_dir(&mut self, path: &str) -> (res: Result<Vec<DirEntry>, BootError>) {
        match find_key(&self.dirs, path) {
            Some(i) => {
                proof {
                    lemma_first_key(self.dirs@, path@, 0);
                    let fk = first_key(self.dirs@, path@, 0);
                    assert(fk is Some);
                    assert(fk->0 == i as int);
                }
                let ghost src = self.dirs@[i as int].1@;
                let mut out: Vec<DirEntry> = Vec::new();
                let mut k: usize = 0;
                while k < self.dirs[i].1.len()
                    invariant
                        i < self.dirs@.len(),
                        src == self.dirs@[i as int].1@,
                        first_key(self.dirs@, path@, 0) == Some(i as int),
                        k <= src.len(),
                        out@.len() == k,
                        forall|j: int| 0 <= j < k ==> (#[trigger] out@[j]).name@ == src[j].name@ && out@[j].inode
                            == src[j].inode && out@[j].file_type == src[j].file_type,
                    decreases src.len() - k,
                {
                    let e = &self.dirs[i].1[k];
                    let copy = DirEntry { name: String::from_str(e.name.as_str()), inode: e.inode, file_type: e.file_type };
                    out.push(copy);
                    k = k + 1;
                }
                assert(listing_view(out@) =~= listing_view(src));
                assert(self.spec_listing(path@) == Ok::<Seq<(Seq<char>, u32, u8)>, BootError>(listing_view(src)));
                assert(listing_result(Ok(out)) == Ok::<Seq<(Seq<char>, u32, u8)>, BootError>(listing_view(out@)));
                Ok(out)
            },
            None => Err(BootError::FilesystemError),
        }
    }

    fn read_file(&mut self, path: &str) -> (res: Result<Vec<u8>, BootError>) {
        match find_key(&self.files, path) {
            Some(i) => {
                proof {
                    lemma_first_key(self.files@, path@, 0);
                    let fk = first_key(self.files@, path@, 0);
                    assert(fk is Some);
                    assert(fk->0 == i as int);
                }
                let mut out: Vec<u8> = Vec::new();
                let mut k: usize = 0;
                while k < self.files[i].1.len()
                    invariant
                        i < self.files@.len(),
                        first_key(self.files@, path@, 0) == Some(i as int),
                        k <= self.files@[i as int].1@.len(),
                        out@ == self.files@[i as int].1@.subrange(0, k as int),
                    decreases self.files@[i as int].1@.len() - k,
                {
                    out.push(self.files[i].1[k]);
                    assert(out@ =~= self.files@[i as int].1@.subrange(0, k + 1));
                    k = k + 1;
                }
                assert(self.files@[i as int].1@.subrange(0, k as int) =~= self.files@[i as int].1@);
                assert(self.spec_contents(path@) == Ok::<Seq<u8>, BootError>(out@));
                assert(contents_result(Ok(out)) == Ok::<Seq<u8>, BootError>(out@));
                Ok(out)
            },
            None => Err(BootError::FilesystemError),
        }
    }

    fn file_exists(&mut self, path: &str) -> (res: Result<bool, BootError>) {
        Ok(find_key(&self.files, path).is_some())
    }
}

fn strip_suffix_str(s: &str, suffix: &str) -> (res: Option<String>)
    ensures
        match res {
            Some(t) => suffix@.len() <= s@.len() && s@ == t@ + suffix@,
            None => !(suffix@.len() <= s@.len() && s@.subrange(s@.len() - suffix@.len(), s@.len() as int) == suffix@),
        },
{
    let a = chars_of(s);
    let b = chars_of(suffix);
    if b.len() > a.len() {
        return None;
    }
    let cut = a.len() - b.len();
    if !crate::text::has_prefix_at(a.as_slice(), cut, b.as_slice()) {
        return None;
    }
    let t = crate::text::string_from_chars(a.as_slice(), 0, cut);
    assert(s@ =~= t@ + suffix@);
    Some(t)
}

fn strip_prefix_str(s: &str, prefix: &str) -> (res: Option<String>)
    ensures
        match res {
            Some(t) => s@ == prefix@ + t@,
            None => !(prefix@.len() <= s@.len() && s@.subrange(0, prefix@.len() as int) == prefix@),
        },
{
    let a = chars_of(s);
    let b = chars_of(prefix);
    if b.len() > a.len() {
        return None;
    }
    if !crate::text::has_prefix_at(a.as_slice(), 0, b.as_slice()) {
        return None;
    }
    let t = crate::text::string_from_chars(a.as_slice(), b.len(), a.len());
    assert(s@ =~= prefix@ + t@);
    Some(t)
}

fn join3(a: &str, b: &str, c: &str) -> (res: String)
    ensures
        res@ == a@ + b@ + c@,
{
    let mut s = String::from_str(a);
    s.append(b);
    s.append(c);
    s
}

/// Init cores newest first: none is older than one after it.
pub open spec fn inits_newest_first(v: Seq<InitRecord>) -> bool {
    forall|i: int, j: int|
        0 <= i < j < v.len() ==> version_order_spec(#[trigger] v[i].version@, #[trigger] v[j].version@) >= 0
}

/// Orders init cores newest first (stable): the result is ordered and
/// holds exactly the given records.
fn sort_inits_newest_first(items: Vec<InitRecord>) -> (res: Vec<InitRecord>)
    ensures
        inits_newest_first(res@),
        res@.to_multiset() == items@.to_multiset(),
{
    broadcast use vstd::multiset::group_multiset_axioms;
    broadcast use vstd::multiset::group_multiset_properties;

    let mut rest = items;
    let mut out: Vec<InitRecord> = Vec::new();
    let ghost all = rest@;
    proof {
        vstd::seq_lib::to_multiset_len(out@);
        assert(out@.to_multiset() =~= vstd::multiset::Multiset::empty());
        assert(vstd::multiset::Multiset::<InitRecord>::empty().add(all.to_multiset()) =~= all.to_multiset());
    }
    while rest.len() > 0
        invariant
            inits_newest_first(out@),
            out@.to_multiset().add(rest@.to_multiset()) == all.to_multiset(),
        decreases rest@.len(),
    {
        let ghost before_rest = rest@;
        let ghost before_out = out@;
        let x = rest.pop().unwrap();
        proof {
            assert(before_rest =~= rest@.push(x));
            vstd::seq_lib::to_multiset_build(rest@, x);
        }
        let mut k: usize = 0;
        while k < out.len() && version_order(out[k].version.as_str(), x.version.as_str()) > 0
            invariant
                k <= out@.len(),
                before_out == out@,
                forall|j: int| 0 <= j < k ==> version_order_spec(#[trigger] out@[j].version@, x.version@) > 0,
            decreases out@.len() - k,
        {
            k = k + 1;
        }
        let ghost xv = x;
        out.insert(k, x);
        proof {
            vstd::seq_lib::to_multiset_insert(before_out, k as int, xv);
            assert(out@.to_multiset().add(rest@.to_multiset()) =~= before_out.to_multiset().add(
                before_rest.to_multiset(),
            ));
            let v = out@;
            let bv = before_out;
            assert forall|i: int, j: int| 0 <= i < j < v.len() implies version_order_spec(
                #[trigger] v[i].version@,
                #[trigger] v[j].version@,
            ) >= 0 by {
                if j < k {
                    assert(v[i] == bv[i] && v[j] == bv[j]);
                } else if j == k {
                    assert(v[i] == bv[i]);
                    assert(v[j] == xv);
                    assert(version_order_spec(bv[i].version@, xv.version@) > 0);
                } else if i == k {
                    assert(v[i] == xv);
                    assert(v[j] == bv[j - 1]);
                    if k < bv.len() {
                        let kk = k as int;
                        assert(version_order_spec(bv[kk].version@, xv.version@) <= 0);
                        lemma_version_order_laws(bv[kk].version@, xv.version@, bv[j - 1].version@);
                        lemma_version_order_laws(xv.version@, bv[kk].version@, bv[j - 1].version@);
                        if j - 1 > kk {
                            assert(version_order_spec(bv[kk].version@, bv[j - 1].version@) >= 0);
                        }
                    }
                } else if i < k {
                    assert(v[i] == bv[i] && v[j] == bv[j - 1]);
                    assert(version_order_spec(bv[i].version@, xv.version@) > 0);
                } else {
                    assert(v[i] == bv[i - 1] && v[j] == bv[j - 1]);
                }
            }
        }
    }
    proof {
        vstd::seq_lib::to_multiset_len(rest@);
        assert(rest@.to_multiset() =~= vstd::multiset::Multiset::empty());
        assert(out@.to_multiset().add(vstd::multiset::Multiset::empty()) =~= out@.to_multiset());
    }
    out
}

/// `r` is the record of the kernel directory `e`: its version is the
/// directory's name, its image that directory's `bzImage` or `vmlinuz`.
pub open spec fn kernel_record_of(e: DirEntry, r: KernelRecord) -> bool {
    &&& e.file_type == 2
    &&& r.version@ == e.name@
    &&& (r.kernel_path@ == "/kernels/"@ + e.name@ + "/"@ + "bzImage"@ || r.kernel_path@ == "/kernels/"@ + e.name@
        + "/"@ + "vmlinuz"@)
}

/// `r` is the record of one of the directories `dirs`.
pub open spec fn kernel_from(dirs: Seq<DirEntry>, r: KernelRecord) -> bool {
    exists|i: int| 0 <= i < dirs.len() && kernel_record_of(dirs[i], r)
}

/// Kernel directories under `/kernels` that hold a `bzImage` (or else a
/// `vmlinuz`): each record comes from one of the directories, in their
/// order. Which ones hold an image the filesystem says.
/// The kernel records read from the first `n` entries of the `/kernels`
/// listing `dirs`: each directory with a `bzImage` (else a `vmlinuz`) file;
/// a failed existence check is the error.
pub open spec fn kernels_spec<F: SystemFiles>(fs: F, dirs: Seq<(Seq<char>, u32, u8)>, n: int) -> Result<Seq<(Seq<char>, Seq<char>)>, BootError>
    decreases n,
{
    if n <= 0 || n > dirs.len() {
        Ok(Seq::empty())
    } else {
        match kernels_spec(fs, dirs, n - 1) {
            Err(e) => Err(e),
            Ok(prev) => {
                let name = dirs[n - 1].0;
                let first = "/kernels/"@ + name + "/"@ + "bzImage"@;
                let second = "/kernels/"@ + name + "/"@ + "vmlinuz"@;
                if dirs[n - 1].2 != 2 {
                    Ok(prev)
                } else {
                    match fs.spec_exists(first) {
                        Err(e) => Err(e),
                        Ok(true) => Ok(prev.push((name, first))),
                        Ok(false) => match fs.spec_exists(second) {
                            Err(e) => Err(e),
                            Ok(true) => Ok(prev.push((name, second))),
                            Ok(false) => Ok(prev),
                        },
                    }
                }
            },
        }
    }
}

pub open spec fn kernel_views(v: Seq<KernelRecord>) -> Seq<(Seq<char>, Seq<char>)> {
    Seq::new(v.len(), |i: int| (v[i].version@, v[i].kernel_path@))
}

proof fn lemma_kernels_err_sticks<F: SystemFiles>(fs: F, dirs: Seq<(Seq<char>, u32, u8)>, k: int, m: int)
    requires
        1 <= k <= m <= dirs.len(),
        kernels_spec(fs, dirs, k) is Err,
    ensures
        kernels_spec(fs, dirs, m) == kernels_spec(fs, dirs, k),
    decreases m - k,
{
    if k < m {
        lemma_kernels_err_sticks(fs, dirs, k, m - 1);
    }
}

fn discover_kernels<F: SystemFiles>(fs: &mut F, dirs: &Vec<DirEntry>) -> (res: Result<Vec<KernelRecord>, BootError>)
    ensures
        match res {
            Ok(ks) => ks@.len() <= dirs@.len() && forall|k: int|
                0 <= k < ks@.len() ==> kernel_from(dirs@, #[trigger] ks@[k]),
            Err(_) => true,
        },
        dirs@.len() == 0 ==> res is Ok,
        final(fs).spec_files_reliable() == old(fs).spec_files_reliable(),
        forall|q: Seq<char>| #[trigger] final(fs).spec_listing(q) == old(fs).spec_listing(q),
        forall|q: Seq<char>| #[trigger] final(fs).spec_contents(q) == old(fs).spec_contents(q),
        forall|q: Seq<char>| #[trigger] final(fs).spec_exists(q) == old(fs).spec_exists(q),
        old(fs).spec_files_reliable() ==> match kernels_spec(*old(fs), listing_view(dirs@), dirs@.len() as int) {
            Ok(ks) => res matches Ok(v) && kernel_views(v@) == ks,
            Err(e) => res == Err::<Vec<KernelRecord>, BootError>(e),
        },
{
    proof {
        reveal_strlit("");
    }
    let ghost fs0 = *fs;
    let ghost dv = listing_view(dirs@);
    let mut kernels: Vec<KernelRecord> = Vec::new();
    assert(kernel_views(kernels@) =~= Seq::<(Seq<char>, Seq<char>)>::empty());
    let mut i: usize = 0;
    while i < dirs.len()
        invariant
            i <= dirs@.len(),
            kernels@.len() <= i,
            ""@ == Seq::<char>::empty(),
            forall|k: int|
                0 <= k < kernels@.len() ==> exists|m: int| 0 <= m < i && kernel_record_of(dirs@[m], #[trigger] kernels@[k]),
            dv == listing_view(dirs@),
            fs0 == *old(fs),
            fs.spec_files_reliable() == fs0.spec_files_reliable(),
            forall|q: Seq<char>| #[trigger] fs.spec_listing(q) == fs0.spec_listing(q),
            forall|q: Seq<char>| #[trigger] fs.spec_contents(q) == fs0.spec_contents(q),
            forall|q: Seq<char>| #[trigger] fs.spec_exists(q) == fs0.spec_exists(q),
            fs0.spec_files_reliable() ==> kernels_spec(fs0, dv, i as int) == Ok::<Seq<(Seq<char>, Seq<char>)>, BootError>(
                kernel_views(kernels@),
            ),
        decreases dirs@.len() - i,
    {
        let entry = &dirs[i];
        let ghost prev = kernels@;
        assert(dv[i as int] == (entry.name@, entry.inode, entry.file_type));
        if entry.is_dir() {
            let base = join3("/kernels/", entry.name.as_str(), "/");
            let first = join3(base.as_str(), "bzImage", "");
            let second = join3(base.as_str(), "vmlinuz", "");
            assert(first@ =~= "/kernels/"@ + entry.name@ + "/"@ + "bzImage"@);
            assert(second@ =~= "/kernels/"@ + entry.name@ + "/"@ + "vmlinuz"@);
            let found = match fs.file_exists(first.as_str()) {
                Ok(true) => Some(first),
                Ok(false) => match fs.file_exists(second.as_str()) {
                    Ok(true) => Some(second),
                    Ok(false) => None,
                    Err(e) => {
                        proof {
                            if fs0.spec_files_reliable() {
                                lemma_kernels_err_sticks(fs0, dv, i + 1, dirs@.len() as int);
                            }
                        }
                        return Err(e);
                    },
                },
                Err(e) => {
                    proof {
                        if fs0.spec_files_reliable() {
                            lemma_kernels_err_sticks(fs0, dv, i + 1, dirs@.len() as int);
                        }
                    }
                    return Err(e);
                },
            };
            if let Some(kernel_path) = found {
                let ghost before = kernels@;
                let record = KernelRecord { version: entry.name.clone(), kernel_path };
                assert(kernel_record_of(dirs@[i as int], record));
                kernels.push(record);
                proof {
                    assert forall|k: int| 0 <= k < kernels@.len() implies exists|m: int|
                        0 <= m < i + 1 && kernel_record_of(dirs@[m], #[trigger] kernels@[k]) by {
                        if k < before.len() {
                            assert(kernels@[k] == before[k]);
                        } else {
                            assert(kernel_record_of(dirs@[i as int], kernels@[k]));
                        }
                    }
                    assert(kernel_views(kernels@) =~= kernel_views(before).push((entry.name@, kernels@.last().kernel_path@)));
                }
            }
        }
        i = i + 1;
    }
    proof {
        assert forall|k: int| 0 <= k < kernels@.len() implies kernel_from(dirs@, #[trigger] kernels@[k]) by {
            let r = kernels@[k];
            let m = choose|m: int| 0 <= m < i && kernel_record_of(dirs@[m], r);
            assert(kernel_record_of(dirs@[m], r));
        }
    }
    Ok(kernels)
}

/// A core's version as its file name gives it: the stem without a leading
/// `luna-`.
pub open spec fn core_version(stem: Seq<char>) -> Seq<char> {
    if "luna-"@.len() <= stem.len() && stem.subrange(0, "luna-"@.len() as int) == "luna-"@ {
        stem.subrange("luna-"@.len() as int, stem.len() as int)
    } else {
        stem
    }
}

/// `r` is the record of the core file `e` (`<stem>.init`): its manifest
/// names the version the file name gives, and the init is that file.
pub open spec fn init_record_of(e: DirEntry, r: InitRecord) -> bool {
    &&& (e.file_type == 1 || e.file_type == 0)
    &&& r.init_path@ == "/cores/"@ + e.name@
    &&& r.version@ == r.manifest.version@
    &&& exists|stem: Seq<char>| e.name@ == stem + ".init"@ && r.version@ == core_version(stem)
}

/// `r` is the record of one of the core files `cores`.
pub open spec fn init_from(cores: Seq<DirEntry>, r: InitRecord) -> bool {
    exists|i: int| 0 <= i < cores.len() && init_record_of(cores[i], r)
}

/// `name` ends in `suffix`.
pub open spec fn ends_with(name: Seq<char>, suffix: Seq<char>) -> bool {
    suffix.len() <= name.len() && name.subrange(name.len() - suffix.len(), name.len() as int) == suffix
}

/// `name` without its last `n` characters.
pub open spec fn cut_end(name: Seq<char>, n: nat) -> Seq<char> {
    name.subrange(0, name.len() - n)
}

/// The init core the `/cores` entry `e` gives (version, init path and the
/// kernels its manifest admits): a file `<stem>.init` whose manifest
/// `<stem>.toml` reads and parses and names the version the file name
/// gives.
pub open spec fn init_view_of<F: SystemFiles>(fs: F, e: (Seq<char>, u32, u8)) -> Option<(Seq<char>, Seq<char>, Seq<Seq<char>>)> {
    let name = e.0;
    if !(e.2 == 1 || e.2 == 0) || !ends_with(name, ".init"@) {
        None
    } else {
        let stem = cut_end(name, 5);
        match fs.spec_contents("/cores/"@ + stem + ".toml"@) {
            Err(_) => None,
            Ok(bytes) => match utf8_text(bytes) {
                None => None,
                Some(t) => {
                    let a = init_fold(config_entries(t), 0, init_acc_start());
                    if init_manifest_valid(t) && a.version->0 == core_version(stem) {
                        Some((a.version->0, "/cores/"@ + name, a.compatible))
                    } else {
                        None
                    }
                },
            },
        }
    }
}

/// The init cores of the first `n` entries of the `/cores` listing, in
/// listing order.
pub open spec fn inits_spec<F: SystemFiles>(fs: F, cores: Seq<(Seq<char>, u32, u8)>, n: int) -> Seq<(Seq<char>, Seq<char>, Seq<Seq<char>>)>
    decreases n,
{
    if n <= 0 || n > cores.len() {
        Seq::empty()
    } else {
        match init_view_of(fs, cores[n - 1]) {
            Some(v) => inits_spec(fs, cores, n - 1).push(v),
            None => inits_spec(fs, cores, n - 1),
        }
    }
}

pub open spec fn init_views(v: Seq<InitRecord>) -> Seq<(Seq<char>, Seq<char>, Seq<Seq<char>>)> {
    Seq::new(v.len(), |i: int| (v[i].version@, v[i].init_path@, strings_view(v[i].manifest.compatible_kernels@)))
}

/// luna-init cores under `/cores`: `<stem>.init` files whose manifest
/// `<stem>.toml` parses and names the version the file name gives, newest
/// first. Which manifests can be read the filesystem says.
fn discover_inits<F: SystemFiles>(fs: &mut F, cores: &Vec<DirEntry>) -> (res: Vec<InitRecord>)
    ensures
        inits_newest_first(res@),
        res@.len() <= cores@.len(),
        forall|k: int| 0 <= k < res@.len() ==> init_from(cores@, #[trigger] res@[k]),
        final(fs).spec_files_reliable() == old(fs).spec_files_reliable(),
        forall|q: Seq<char>| #[trigger] final(fs).spec_listing(q) == old(fs).spec_listing(q),
        forall|q: Seq<char>| #[trigger] final(fs).spec_contents(q) == old(fs).spec_contents(q),
        forall|q: Seq<char>| #[trigger] final(fs).spec_exists(q) == old(fs).spec_exists(q),
        old(fs).spec_files_reliable() ==> exists|u: Seq<InitRecord>|
            init_views(u) == inits_spec(*old(fs), listing_view(cores@), cores@.len() as int) && #[trigger] res@.to_multiset()
                == u.to_multiset(),
{
    let ghost fs0 = *fs;
    let ghost cv = listing_view(cores@);
    let mut inits: Vec<InitRecord> = Vec::new();
    assert(init_views(inits@) =~= Seq::<(Seq<char>, Seq<char>, Seq<Seq<char>>)>::empty());
    let mut i: usize = 0;
    while i < cores.len()
        invariant
            i <= cores@.len(),
            inits@.len() <= i,
            cv == listing_view(cores@),
            fs0 == *old(fs),
            fs.spec_files_reliable() == fs0.spec_files_reliable(),
            forall|q: Seq<char>| #[trigger] fs.spec_listing(q) == fs0.spec_listing(q),
            forall|q: Seq<char>| #[trigger] fs.spec_contents(q) == fs0.spec_contents(q),
            forall|q: Seq<char>| #[trigger] fs.spec_exists(q) == fs0.spec_exists(q),
            fs0.spec_files_reliable() ==> init_views(inits@) == inits_spec(fs0, cv, i as int),
            forall|k: int|
                0 <= k < inits@.len() ==> exists|m: int| 0 <= m < i && init_record_of(cores@[m], #[trigger] inits@[k]),
        decreases cores@.len() - i,
    {
        let entry = &cores[i];
        assert(cv[i as int] == (entry.name@, entry.inode, entry.file_type));
        let ghost e = cv[i as int];
        let ghost reliable = fs0.spec_files_reliable();
        let ghost prev = inits@;
        proof {
            reveal_strlit(".init");
            assert(inits_spec(fs0, cv, i + 1) == match init_view_of(fs0, e) {
                Some(v) => inits_spec(fs0, cv, i as int).push(v),
                None => inits_spec(fs0, cv, i as int),
            });
        }
        if entry.is_file() {
            if let Some(stem) = strip_suffix_str(entry.name.as_str(), ".init") {
                proof {
                    assert(entry.name@.subrange(entry.name@.len() - 5, entry.name@.len() as int) =~= ".init"@);
                    assert(cut_end(entry.name@, 5) =~= stem@);
                    assert(ends_with(entry.name@, ".init"@));
                }
                let init_path = join3("/cores/", entry.name.as_str(), "");
                let manifest_path = join3("/cores/", stem.as_str(), ".toml");
                match fs.read_file(manifest_path.as_str()) {
                    Ok(bytes) => {
                        match InitManifest::parse(bytes.as_slice()) {
                            Ok(manifest) => {
                                let expected = match strip_prefix_str(stem.as_str(), "luna-") {
                                    Some(v) => {
                                        assert(v@ =~= stem@.subrange("luna-"@.len() as int, stem@.len() as int));
                                        assert(stem@.subrange(0, "luna-"@.len() as int) =~= "luna-"@);
                                        v
                                    },
                                    None => stem.clone(),
                                };
                                assert(expected@ == core_version(stem@));
                                if str_eq(manifest.version.as_str(), expected.as_str()) {
                                    proof {
                                        reveal_strlit("");
                                        assert(init_path@ =~= "/cores/"@ + entry.name@);
                                    }
                                    let ghost before = inits@;
                                    let record = InitRecord { version: manifest.version.clone(), init_path, manifest };
                                    assert(init_record_of(cores@[i as int], record));
                                    inits.push(record);
                                    proof {
                                        assert(init_views(inits@) =~= init_views(before).push(
                                            (record.version@, record.init_path@, strings_view(record.manifest.compatible_kernels@)),
                                        ));
                                        assert forall|k: int| 0 <= k < inits@.len() implies exists|m: int|
                                            0 <= m < i + 1 && init_record_of(cores@[m], #[trigger] inits@[k]) by {
                                            if k < before.len() {
                                                assert(inits@[k] == before[k]);
                                            } else {
                                                assert(init_record_of(cores@[i as int], inits@[k]));
                                            }
                                        }
                                    }
                                } else {
                                    assert(reliable ==> init_view_of(fs0, e) is None);
                                }
                            },
                            Err(_) => {
                                assert(reliable ==> init_view_of(fs0, e) is None);
                            },
                        }
                    },
                    Err(_) => {
                        assert(reliable ==> init_view_of(fs0, e) is None);
                    },
                }
            } else {
                assert(init_view_of(fs0, e) is None);
            }
        } else {
            assert(init_view_of(fs0, e) is None);
        }
        i = i + 1;
    }
    let ghost unsorted = inits@;
    let res = sort_inits_newest_first(inits);
    proof {
        if fs0.spec_files_reliable() {
            assert(init_views(unsorted) == inits_spec(fs0, cv, cores@.len() as int));
            assert(res@.to_multiset() == unsorted.to_multiset());
        }
        vstd::seq_lib::to_multiset_len(res@);
        vstd::seq_lib::to_multiset_len(unsorted);
        assert forall|k: int| 0 <= k < res@.len() implies init_from(cores@, #[trigger] res@[k]) by {
            let r = res@[k];
            lemma_in_multiset(res@, unsorted, k);
            let j = choose|j: int| 0 <= j < unsorted.len() && unsorted[j] == r;
            let u = unsorted[j];
            assert(u == r);
            let m = choose|m: int| 0 <= m < cores@.len() && init_record_of(cores@[m], u);
            assert(init_record_of(cores@[m], r));
        }
    }
    res
}

/// The command line of targets found under `/images`.
pub const IMAGE_CMDLINE: &'static str = "console=tty0 console=ttyS0,115200n8 loglevel=7 ignore_loglevel initcall_debug";

/// The command line of recovery targets.
pub const RECOVERY_CMDLINE: &'static str = "quiet loglevel=3";

/// The index `best_index` allows among `versions`, for the versions
/// `allowed` admits (it allows one at most).
pub open spec fn best_admitted(versions: Seq<Seq<char>>, allowed: Seq<Seq<char>>) -> Option<int> {
    choose|r: Option<int>| #[trigger] best_index(versions, admitted_by(allowed, versions), r)
}

/// Which of `versions` `allowed` admits.
pub open spec fn admitted_by(allowed: Seq<Seq<char>>, versions: Seq<Seq<char>>) -> spec_fn(int) -> bool {
    |j: int| admits(allowed, versions[j])
}

proof fn lemma_best_admitted(versions: Seq<Seq<char>>, allowed: Seq<Seq<char>>, ok: spec_fn(int) -> bool, r: Option<int>)
    requires
        best_index(versions, ok, r),
        forall|j: int| #[trigger] ok(j) == admits(allowed, versions[j]),
    ensures
        best_admitted(versions, allowed) == r,
{
    let ok2 = admitted_by(allowed, versions);
    assert(ok =~= ok2);
    assert(best_index(versions, ok2, r));
    let r2 = best_admitted(versions, allowed);
    assert(best_index(versions, ok2, r2));
    match (r, r2) {
        (Some(i), Some(k)) => {
            lemma_version_order_laws(versions[i], versions[k], versions[k]);
            if i < k {
                assert(ok2(k) && ok2(i));
            } else if k < i {
                assert(ok2(k) && ok2(i));
            }
        },
        (Some(i), None) => {
            assert(ok2(i));
        },
        (None, Some(k)) => {
            assert(ok2(k));
        },
        (None, None) => {},
    }
}

/// The target an `/images` entry gives, with the image's role: a file
/// `<stem>.squashfs` whose manifest `<stem>.toml` reads, parses and names
/// the version the file name gives, paired with the newest of `inits` the
/// image admits and the newest of `kernels` that core admits.
pub open spec fn image_target_of<F: SystemFiles>(
    fs: F,
    e: (Seq<char>, u32, u8),
    inits: Seq<InitRecord>,
    kernels: Seq<KernelRecord>,
) -> Option<(ImageRole, BootTargetView)> {
    let name = e.0;
    if !(e.2 == 1 || e.2 == 0) || !ends_with(name, ".squashfs"@) {
        None
    } else {
        let stem = cut_end(name, 9);
        let mpath = "/images/"@ + stem + ".toml"@;
        match fs.spec_contents(mpath) {
            Err(_) => None,
            Ok(bytes) => match utf8_text(bytes) {
                None => None,
                Some(text) => {
                    let a = image_fold(config_entries(text), 0, image_acc_start());
                    if !image_manifest_valid(text) || a.version->0 != core_version(stem) {
                        None
                    } else {
                        match best_admitted(init_versions(inits), a.compatible) {
                            None => None,
                            Some(ii) => match best_admitted(
                                kernel_versions(kernels),
                                strings_view(inits[ii].manifest.compatible_kernels@),
                            ) {
                                None => None,
                                Some(ki) => Some(
                                    (
                                        a.role,
                                        BootTargetView {
                                            name: match a.role {
                                                ImageRole::Normal => "Luna "@ + a.version->0,
                                                ImageRole::Factory => "Factory Environment"@,
                                                ImageRole::Recovery => "Recovery Environment"@,
                                            },
                                            image_family: a.name->0,
                                            system_version: a.version->0,
                                            system_image_path: "/images/"@ + name,
                                            manifest_path: mpath,
                                            init_path: inits[ii].init_path@,
                                            kernel_path: kernels[ki].kernel_path@,
                                            kernel_id: kernels[ki].version@,
                                            kernel_cmdline: IMAGE_CMDLINE@,
                                            is_recovery: false,
                                            is_factory: a.role == ImageRole::Factory,
                                            recovery_data_path: None,
                                            recovery_data_digest: None,
                                        },
                                    ),
                                ),
                            },
                        }
                    }
                },
            },
        }
    }
}

/// The targets of role `role` the first `n` entries of the `/images`
/// listing give, in listing order.
pub open spec fn image_targets<F: SystemFiles>(
    fs: F,
    images: Seq<(Seq<char>, u32, u8)>,
    inits: Seq<InitRecord>,
    kernels: Seq<KernelRecord>,
    n: int,
    role: ImageRole,
) -> Seq<BootTargetView>
    decreases n,
{
    if n <= 0 || n > images.len() {
        Seq::empty()
    } else {
        let prev = image_targets(fs, images, inits, kernels, n - 1, role);
        match image_target_of(fs, images[n - 1], inits, kernels) {
            Some(p) => if p.0 == role {
                prev.push(p.1)
            } else {
                prev
            },
            None => prev,
        }
    }
}

/// The recovery target a `/recovery` entry gives: a file
/// `recovery-<version>.squashfs` whose manifest `recovery-<version>.toml`
/// reads, parses and names that version, paired as an image is.
pub open spec fn recovery_target_of<F: SystemFiles>(
    fs: F,
    e: (Seq<char>, u32, u8),
    inits: Seq<InitRecord>,
    kernels: Seq<KernelRecord>,
) -> Option<BootTargetView> {
    let name = e.0;
    let stem = cut_end(name, 9);
    if !(e.2 == 1 || e.2 == 0) || !ends_with(name, ".squashfs"@) || !("recovery-"@.len() <= stem.len()
        && stem.subrange(0, 9) == "recovery-"@) {
        None
    } else {
        let version = stem.subrange(9, stem.len() as int);
        let mpath = "/recovery/"@ + stem + ".toml"@;
        match fs.spec_contents(mpath) {
            Err(_) => None,
            Ok(bytes) => match utf8_text(bytes) {
                None => None,
                Some(text) => {
                    let a = image_fold(config_entries(text), 0, image_acc_start());
                    if !image_manifest_valid(text) || a.version->0 != version {
                        None
                    } else {
                        match best_admitted(init_versions(inits), a.compatible) {
                            None => None,
                            Some(ii) => match best_admitted(
                                kernel_versions(kernels),
                                strings_view(inits[ii].manifest.compatible_kernels@),
                            ) {
                                None => None,
                                Some(ki) => Some(
                                    BootTargetView {
                                        name: "Recovery Environment"@,
                                        image_family: a.name->0,
                                        system_version: a.version->0,
                                        system_image_path: "/recovery/"@ + name,
                                        manifest_path: mpath,
                                        init_path: inits[ii].init_path@,
                                        kernel_path: kernels[ki].kernel_path@,
                                        kernel_id: kernels[ki].version@,
                                        kernel_cmdline: RECOVERY_CMDLINE@,
                                        is_recovery: true,
                                        is_factory: false,
                                        recovery_data_path: None,
                                        recovery_data_digest: None,
                                    },
                                ),
                            },
                        }
                    }
                },
            },
        }
    }
}

/// The recovery targets the first `n` entries of the `/recovery` listing
/// give, in listing order.
pub open spec fn recovery_targets<F: SystemFiles>(
    fs: F,
    entries: Seq<(Seq<char>, u32, u8)>,
    inits: Seq<InitRecord>,
    kernels: Seq<KernelRecord>,
    n: int,
) -> Seq<BootTargetView>
    decreases n,
{
    if n <= 0 || n > entries.len() {
        Seq::empty()
    } else {
        let prev = recovery_targets(fs, entries, inits, kernels, n - 1);
        match recovery_target_of(fs, entries[n - 1], inits, kernels) {
            Some(t) => prev.push(t),
            None => prev,
        }
    }
}

/// The target the `/images` entry `image` gives, with the image's role.
fn image_target<F: SystemFiles>(
    fs: &mut F,
    image: &DirEntry,
    inits: &Vec<InitRecord>,
    kernels: &Vec<KernelRecord>,
) -> (res: Option<(ImageRole, BootTarget)>)
    ensures
        final(fs).spec_files_reliable() == old(fs).spec_files_reliable(),
        forall|q: Seq<char>| #[trigger] final(fs).spec_listing(q) == old(fs).spec_listing(q),
        forall|q: Seq<char>| #[trigger] final(fs).spec_contents(q) == old(fs).spec_contents(q),
        forall|q: Seq<char>| #[trigger] final(fs).spec_exists(q) == old(fs).spec_exists(q),
        res matches Some(q) ==> !q.1.is_recovery && q.1.is_factory == (q.0 == ImageRole::Factory),
        old(fs).spec_files_reliable() ==> match image_target_of(*old(fs), (image.name@, image.inode, image.file_type), inits@, kernels@) {
            None => res is None,
            Some(p) => res matches Some(q) && q.0 == p.0 && q.1@ == p.1,
        },
{
    let ghost fs0 = *fs;
    let ghost e = (image.name@, image.inode, image.file_type);
    let ghost reliable = fs0.spec_files_reliable();
    proof {
        reveal_strlit(".squashfs");
    }
    if !image.is_file() {
        return None;
    }
    let stem = match strip_suffix_str(image.name.as_str(), ".squashfs") {
        Some(s) => s,
        None => return None,
    };
    proof {
        assert(image.name@.subrange(image.name@.len() - 9, image.name@.len() as int) =~= ".squashfs"@);
        assert(cut_end(image.name@, 9) =~= stem@);
        assert(ends_with(image.name@, ".squashfs"@));
    }
    let manifest_path = join3("/images/", stem.as_str(), ".toml");
    let bytes = match fs.read_file(manifest_path.as_str()) {
        Ok(b) => b,
        Err(_) => return None,
    };
    let manifest = match ImageManifest::parse(bytes.as_slice()) {
        Ok(m) => m,
        Err(_) => return None,
    };
    let expected = match strip_prefix_str(stem.as_str(), "luna-") {
        Some(v) => {
            assert(v@ =~= stem@.subrange("luna-"@.len() as int, stem@.len() as int));
            assert(stem@.subrange(0, "luna-"@.len() as int) =~= "luna-"@);
            v
        },
        None => stem.clone(),
    };
    assert(expected@ == core_version(stem@));
    if !str_eq(manifest.version.as_str(), expected.as_str()) {
        return None;
    }
    let ghost text = utf8_text(bytes@)->0;
    let ghost a = image_fold(config_entries(text), 0, image_acc_start());
    let ii = match select_init(&manifest, inits) {
        Some(ii) => ii,
        None => {
            proof {
                if reliable {
                    lemma_best_admitted(
                        init_versions(inits@),
                        a.compatible,
                        |j: int| admits(strings_view(manifest.compatible_inits@), init_versions(inits@)[j]),
                        None,
                    );
                }
            }
            return None;
        },
    };
    let ki = match select_kernel(&inits[ii].manifest, kernels) {
        Some(ki) => ki,
        None => {
            proof {
                if reliable {
                    lemma_best_admitted(
                        init_versions(inits@),
                        a.compatible,
                        |j: int| admits(strings_view(manifest.compatible_inits@), init_versions(inits@)[j]),
                        Some(ii as int),
                    );
                    lemma_best_admitted(
                        kernel_versions(kernels@),
                        strings_view(inits@[ii as int].manifest.compatible_kernels@),
                        |j: int| admits(strings_view(inits@[ii as int].manifest.compatible_kernels@), kernel_versions(kernels@)[j]),
                        None,
                    );
                }
            }
            return None;
        },
    };
    proof {
        if reliable {
            lemma_best_admitted(
                init_versions(inits@),
                a.compatible,
                |j: int| admits(strings_view(manifest.compatible_inits@), init_versions(inits@)[j]),
                Some(ii as int),
            );
            lemma_best_admitted(
                kernel_versions(kernels@),
                strings_view(inits@[ii as int].manifest.compatible_kernels@),
                |j: int| admits(strings_view(inits@[ii as int].manifest.compatible_kernels@), kernel_versions(kernels@)[j]),
                Some(ki as int),
            );
        }
        reveal_strlit("");
    }
    let role = manifest.role;
    let name = match role {
        ImageRole::Normal => join3("Luna ", manifest.version.as_str(), ""),
        ImageRole::Factory => String::from_str("Factory Environment"),
        ImageRole::Recovery => String::from_str("Recovery Environment"),
    };
    let target = BootTarget::new(
        name,
        manifest.name.clone(),
        manifest.version.clone(),
        join3("/images/", image.name.as_str(), ""),
        manifest_path,
        inits[ii].init_path.clone(),
        kernels[ki].kernel_path.clone(),
        kernels[ki].version.clone(),
    ).with_cmdline(String::from_str(IMAGE_CMDLINE));
    let target = match role {
        ImageRole::Factory => target.factory(),
        _ => target,
    };
    Some((role, target))
}

/// The recovery target the `/recovery` entry `image` gives.
fn recovery_target<F: SystemFiles>(
    fs: &mut F,
    image: &DirEntry,
    inits: &Vec<InitRecord>,
    kernels: &Vec<KernelRecord>,
) -> (res: Option<BootTarget>)
    ensures
        final(fs).spec_files_reliable() == old(fs).spec_files_reliable(),
        forall|q: Seq<char>| #[trigger] final(fs).spec_listing(q) == old(fs).spec_listing(q),
        forall|q: Seq<char>| #[trigger] final(fs).spec_contents(q) == old(fs).spec_contents(q),
        forall|q: Seq<char>| #[trigger] final(fs).spec_exists(q) == old(fs).spec_exists(q),
        res matches Some(r) ==> r.is_recovery && !r.is_factory,
        old(fs).spec_files_reliable() ==> match recovery_target_of(*old(fs), (image.name@, image.inode, image.file_type), inits@, kernels@) {
            None => res is None,
            Some(t) => res matches Some(r) && r@ == t,
        },
{
    let ghost fs0 = *fs;
    let ghost reliable = fs0.spec_files_reliable();
    proof {
        reveal_strlit(".squashfs");
        reveal_strlit("recovery-");
    }
    if !image.is_file() {
        return None;
    }
    let stem = match strip_suffix_str(image.name.as_str(), ".squashfs") {
        Some(s) => s,
        None => return None,
    };
    proof {
        assert(image.name@.subrange(image.name@.len() - 9, image.name@.len() as int) =~= ".squashfs"@);
        assert(cut_end(image.name@, 9) =~= stem@);
        assert(ends_with(image.name@, ".squashfs"@));
    }
    let version = match strip_prefix_str(stem.as_str(), "recovery-") {
        Some(v) => v,
        None => return None,
    };
    proof {
        assert(stem@.subrange(0, 9) =~= "recovery-"@);
        assert(version@ =~= stem@.subrange(9, stem@.len() as int));
    }
    let manifest_path = join3("/recovery/", stem.as_str(), ".toml");
    let bytes = match fs.read_file(manifest_path.as_str()) {
        Ok(b) => b,
        Err(_) => return None,
    };
    let manifest = match ImageManifest::parse(bytes.as_slice()) {
        Ok(m) => m,
        Err(_) => return None,
    };
    proof {
        reveal_strlit("squashfs");
        reveal_strlit("x86_64");
    }
    if !(str_eq(manifest.version.as_str(), version.as_str()) && str_eq(manifest.format.as_str(), "squashfs")
        && str_eq(manifest.arch.as_str(), "x86_64")) {
        return None;
    }
    let ghost text = utf8_text(bytes@)->0;
    let ghost a = image_fold(config_entries(text), 0, image_acc_start());
    let ii = match select_init(&manifest, inits) {
        Some(ii) => ii,
        None => {
            proof {
                if reliable {
                    lemma_best_admitted(
                        init_versions(inits@),
                        a.compatible,
                        |j: int| admits(strings_view(manifest.compatible_inits@), init_versions(inits@)[j]),
                        None,
                    );
                }
            }
            return None;
        },
    };
    let ki = match select_kernel(&inits[ii].manifest, kernels) {
        Some(ki) => ki,
        None => {
            proof {
                if reliable {
                    lemma_best_admitted(
                        init_versions(inits@),
                        a.compatible,
                        |j: int| admits(strings_view(manifest.compatible_inits@), init_versions(inits@)[j]),
                        Some(ii as int),
                    );
                    lemma_best_admitted(
                        kernel_versions(kernels@),
                        strings_view(inits@[ii as int].manifest.compatible_kernels@),
                        |j: int| admits(strings_view(inits@[ii as int].manifest.compatible_kernels@), kernel_versions(kernels@)[j]),
                        None,
                    );
                }
            }
            return None;
        },
    };
    proof {
        if reliable {
            lemma_best_admitted(
                init_versions(inits@),
                a.compatible,
                |j: int| admits(strings_view(manifest.compatible_inits@), init_versions(inits@)[j]),
                Some(ii as int),
            );
            lemma_best_admitted(
                kernel_versions(kernels@),
                strings_view(inits@[ii as int].manifest.compatible_kernels@),
                |j: int| admits(strings_view(inits@[ii as int].manifest.compatible_kernels@), kernel_versions(kernels@)[j]),
                Some(ki as int),
            );
        }
        reveal_strlit("");
    }
    let target = BootTarget::new(
        String::from_str("Recovery Environment"),
        manifest.name.clone(),
        manifest.version.clone(),
        join3("/recovery/", image.name.as_str(), ""),
        manifest_path,
        inits[ii].init_path.clone(),
        kernels[ki].kernel_path.clone(),
        kernels[ki].version.clone(),
    ).with_cmdline(String::from_str(RECOVERY_CMDLINE)).recovery();
    Some(target)
}

proof fn lemma_targets_same_fs<F: SystemFiles>(a: F, b: F, e: (Seq<char>, u32, u8), inits: Seq<InitRecord>, kernels: Seq<KernelRecord>)
    requires
        forall|q: Seq<char>| #[trigger] a.spec_contents(q) == b.spec_contents(q),
    ensures
        image_target_of(a, e, inits, kernels) == image_target_of(b, e, inits, kernels),
        recovery_target_of(a, e, inits, kernels) == recovery_target_of(b, e, inits, kernels),
{
    let stem = cut_end(e.0, 9);
    assert(a.spec_contents("/images/"@ + stem + ".toml"@) == b.spec_contents("/images/"@ + stem + ".toml"@));
    assert(a.spec_contents("/recovery/"@ + stem + ".toml"@) == b.spec_contents("/recovery/"@ + stem + ".toml"@));
}

proof fn lemma_kernels_same_fs<F: SystemFiles>(a: F, b: F, dirs: Seq<(Seq<char>, u32, u8)>, n: int)
    requires
        forall|q: Seq<char>| #[trigger] a.spec_exists(q) == b.spec_exists(q),
    ensures
        kernels_spec(a, dirs, n) == kernels_spec(b, dirs, n),
    decreases n,
{
    if 0 < n <= dirs.len() {
        lemma_kernels_same_fs(a, b, dirs, n - 1);
        let name = dirs[n - 1].0;
        assert(a.spec_exists("/kernels/"@ + name + "/"@ + "bzImage"@) == b.spec_exists("/kernels/"@ + name + "/"@ + "bzImage"@));
        assert(a.spec_exists("/kernels/"@ + name + "/"@ + "vmlinuz"@) == b.spec_exists("/kernels/"@ + name + "/"@ + "vmlinuz"@));
    }
}

proof fn lemma_inits_same_fs<F: SystemFiles>(a: F, b: F, cores: Seq<(Seq<char>, u32, u8)>, n: int)
    requires
        forall|q: Seq<char>| #[trigger] a.spec_contents(q) == b.spec_contents(q),
    ensures
        inits_spec(a, cores, n) == inits_spec(b, cores, n),
    decreases n,
{
    if 0 < n <= cores.len() {
        lemma_inits_same_fs(a, b, cores, n - 1);
        let stem = cut_end(cores[n - 1].0, 5);
        assert(a.spec_contents("/cores/"@ + stem + ".toml"@) == b.spec_contents("/cores/"@ + stem + ".toml"@));
    }
}

/// The catalog discovery gives for the targets found, in listing order:
/// `NoBootTargets` when there is none at all; else a catalog whose targets
/// are the normal ones (in some order) and whose recovery and factory
/// environments are picked among those found.
pub open spec fn catalog_outcome(
    res: Result<BootCatalog, BootError>,
    normal: Seq<BootTargetView>,
    recovery: Seq<BootTargetView>,
    factory: Seq<BootTargetView>,
) -> bool {
    if normal.len() == 0 && recovery.len() == 0 && factory.len() == 0 {
        res == Err::<BootCatalog, BootError>(BootError::NoBootTargets)
    } else {
        res matches Ok(c) && {
            &&& exists|t: Seq<BootTarget>| #[trigger] views(t) == normal && c.targets@.to_multiset() == t.to_multiset()
            &&& exists|r: Seq<BootTarget>, rs: Seq<BootTarget>|
                #![trigger views(r), views(rs)]
                views(r) == recovery && rs.to_multiset() == r.to_multiset() && newest_first(views(rs))
                    && pick_spec(views(rs), opt_ref(c.boot_state.recovery), opt_target_view(c.recovery))
            &&& exists|f: Seq<BootTarget>, fs: Seq<BootTarget>|
                #![trigger views(f), views(fs)]
                views(f) == factory && fs.to_multiset() == f.to_multiset() && newest_first(views(fs))
                    && pick_spec(views(fs), opt_ref(c.boot_state.factory), opt_target_view(c.factory))
        }
    }
}

/// What discovery gives once `/images`, `/cores` and `/kernels` list: the
/// kernels' error if one comes; else the catalog of the targets the images
/// and recovery images give, paired with the init cores (newest first) and
/// the kernels found.
pub open spec fn discover_result<F: SystemFiles>(fs: F, res: Result<BootCatalog, BootError>) -> bool {
    let images = fs.spec_listing("/images"@)->Ok_0;
    let cores = fs.spec_listing("/cores"@)->Ok_0;
    let kdirs = fs.spec_listing("/kernels"@)->Ok_0;
    let recovery = match fs.spec_listing("/recovery"@) {
        Ok(r) => r,
        Err(_) => Seq::empty(),
    };
    match kernels_spec(fs, kdirs, kdirs.len() as int) {
        Err(e) => res == Err::<BootCatalog, BootError>(e),
        Ok(kv) => exists|u: Seq<InitRecord>, inits: Seq<InitRecord>, kernels: Seq<KernelRecord>|
            #![trigger init_views(u), inits_newest_first(inits), kernel_views(kernels)]
            init_views(u) == inits_spec(fs, cores, cores.len() as int) && inits.to_multiset() == u.to_multiset()
                && inits_newest_first(inits) && kernel_views(kernels) == kv && catalog_outcome(
                res,
                image_targets(fs, images, inits, kernels, images.len() as int, ImageRole::Normal),
                recovery_targets(fs, recovery, inits, kernels, recovery.len() as int),
                image_targets(fs, images, inits, kernels, images.len() as int, ImageRole::Factory),
            ),
    }
}

pub open spec fn all_normal(v: Seq<BootTarget>) -> bool {
    forall|i: int| 0 <= i < v.len() ==> !(#[trigger] v[i]).is_recovery && !v[i].is_factory
}

pub open spec fn all_factory(v: Seq<BootTarget>) -> bool {
    forall|i: int| 0 <= i < v.len() ==> (#[trigger] v[i]).is_factory && !v[i].is_recovery
}

pub open spec fn all_recovery(v: Seq<BootTarget>) -> bool {
    forall|i: int| 0 <= i < v.len() ==> (#[trigger] v[i]).is_recovery && !v[i].is_factory
}

/// What holds of every catalog discovery returns.
pub open spec fn catalog_well_formed(c: BootCatalog) -> bool {
    &&& newest_first(views(c.targets@))
    &&& all_normal(c.targets@)
    &&& (c.recovery matches Some(r) ==> r.is_recovery && !r.is_factory)
    &&& (c.factory matches Some(f) ==> f.is_factory && !f.is_recovery)
    &&& (c.targets@.len() > 0 ==> c.default_target < c.targets@.len())
    &&& (c.targets@.len() == 0 ==> c.default_target == 0)
    &&& !(c.targets@.len() == 0 && c.recovery is None && c.factory is None)
}

proof fn lemma_in_multiset<A>(s: Seq<A>, t: Seq<A>, i: int)
    requires
        s.to_multiset() == t.to_multiset(),
        0 <= i < s.len(),
    ensures
        t.contains(s[i]),
{
    vstd::seq_lib::to_multiset_contains(s, s[i]);
    vstd::seq_lib::to_multiset_contains(t, s[i]);
    assert(s.contains(s[i]));
}

proof fn lemma_assembled_well_formed(
    targets: Seq<BootTarget>,
    rec: Seq<BootTarget>,
    fac: Seq<BootTarget>,
    boot_state: BootStateConfig,
    c: BootCatalog,
)
    requires
        all_normal(targets),
        all_recovery(rec),
        all_factory(fac),
        !(targets.len() == 0 && rec.len() == 0 && fac.len() == 0),
        c.targets@.to_multiset() == targets.to_multiset(),
        newest_first(views(c.targets@)),
        exists|rs: Seq<BootTarget>|
            rs.to_multiset() == rec.to_multiset() && newest_first(views(rs)) && pick_spec(
                views(rs),
                opt_ref(boot_state.recovery),
                opt_target_view(c.recovery),
            ),
        exists|fs: Seq<BootTarget>|
            fs.to_multiset() == fac.to_multiset() && newest_first(views(fs)) && pick_spec(
                views(fs),
                opt_ref(boot_state.factory),
                opt_target_view(c.factory),
            ),
        default_index_spec(views(c.targets@), opt_ref(boot_state.current), c.default_target as int),
    ensures
        catalog_well_formed(c),
{
    broadcast use vstd::multiset::group_multiset_axioms;
    vstd::seq_lib::to_multiset_len(targets);
    vstd::seq_lib::to_multiset_len(c.targets@);
    assert forall|i: int| 0 <= i < c.targets@.len() implies !(#[trigger] c.targets@[i]).is_recovery
        && !c.targets@[i].is_factory by {
        lemma_in_multiset(c.targets@, targets, i);
    }
    let rs = choose|rs: Seq<BootTarget>|
        rs.to_multiset() == rec.to_multiset() && newest_first(views(rs)) && pick_spec(
            views(rs),
            opt_ref(boot_state.recovery),
            opt_target_view(c.recovery),
        );
    let fs = choose|fs: Seq<BootTarget>|
        fs.to_multiset() == fac.to_multiset() && newest_first(views(fs)) && pick_spec(
            views(fs),
            opt_ref(boot_state.factory),
            opt_target_view(c.factory),
        );
    vstd::seq_lib::to_multiset_len(rs);
    vstd::seq_lib::to_multiset_len(rec);
    vstd::seq_lib::to_multiset_len(fs);
    vstd::seq_lib::to_multiset_len(fac);
    if c.recovery is Some {
        let r = c.recovery->0;
        let i = if opt_ref(boot_state.recovery) is Some && exists|j: int| 0 <= j < views(rs).len()
            && #[trigger] target_matches_spec(views(rs)[j], opt_ref(boot_state.recovery)) {
            choose|i: int| first_match(views(rs), opt_ref(boot_state.recovery)->0, Some(i))
                && opt_target_view(c.recovery) == Some(views(rs)[i])
        } else {
            0
        };
        assert(r@ == rs[i]@);
        lemma_in_multiset(rs, rec, i);
        let k = choose|k: int| 0 <= k < rec.len() && rec[k] == rs[i];
        assert(rec[k].is_recovery && !rec[k].is_factory);
    }
    if c.factory is Some {
        let f = c.factory->0;
        let i = if opt_ref(boot_state.factory) is Some && exists|j: int| 0 <= j < views(fs).len()
            && #[trigger] target_matches_spec(views(fs)[j], opt_ref(boot_state.factory)) {
            choose|i: int| first_match(views(fs), opt_ref(boot_state.factory)->0, Some(i))
                && opt_target_view(c.factory) == Some(views(fs)[i])
        } else {
            0
        };
        assert(f@ == fs[i]@);
        lemma_in_multiset(fs, fac, i);
        let k = choose|k: int| 0 <= k < fac.len() && fac[k] == fs[i];
        assert(fac[k].is_factory && !fac[k].is_recovery);
    }
}

impl BootCatalog {
    /// Finds every bootable target on the system partition: kernels under
    /// `/kernels`, init cores under `/cores`, System Images under `/images`
    /// (normal and factory) and recovery images under `/recovery`, each
    /// image paired with the newest init it admits and the newest kernel
    /// that init admits; then [`BootCatalog::assemble`]. An unreadable or
    /// malformed boot state counts as none. Whatever the files hold, a
    /// catalog that is returned is well formed.
    ///
    /// On reliable storage: a failed listing of `/images`, then of `/cores`,
    /// then of `/kernels` is the error returned; and with no image, no
    /// recovery image and no kernel listed, there is nothing to boot.
    pub fn discover<F: SystemFiles>(fs: &mut F) -> (res: Result<BootCatalog, BootError>)
        ensures
            res matches Ok(c) ==> catalog_well_formed(c),
            res matches Ok(c) ==> default_index_spec(views(c.targets@), opt_ref(c.boot_state.current), c.default_target as int),
            old(fs).spec_files_reliable() ==> {
                let images = old(fs).spec_listing("/images"@);
                let cores = old(fs).spec_listing("/cores"@);
                let kernels = old(fs).spec_listing("/kernels"@);
                &&& (images matches Err(e) ==> res == Err::<BootCatalog, BootError>(e))
                &&& (images is Ok ==> (cores matches Err(e) ==> res == Err::<BootCatalog, BootError>(e)))
                &&& (images is Ok && cores is Ok ==> (kernels matches Err(e) ==> res == Err::<BootCatalog, BootError>(e)))
                &&& (images is Ok && cores is Ok && kernels is Ok ==> discover_result(*old(fs), res))
            },
    {
        let ghost fs0 = *fs;
        let ghost reliable = fs.spec_files_reliable();
        let images = match fs.read_dir("/images") {
            Ok(v) => v,
            Err(e) => return Err(e),
        };
        let ghost iv = listing_view(images@);
        assert(reliable ==> fs0.spec_listing("/images"@) == Ok::<Seq<(Seq<char>, u32, u8)>, BootError>(iv));
        let recovery_dir = match fs.read_dir("/recovery") {
            Ok(v) => v,
            Err(_) => Vec::new(),
        };
        let ghost rv = listing_view(recovery_dir@);
        assert(reliable ==> rv == match fs0.spec_listing("/recovery"@) {
            Ok(r) => r,
            Err(_) => Seq::<(Seq<char>, u32, u8)>::empty(),
        }) by {
            if reliable && fs0.spec_listing("/recovery"@) is Err {
                assert(rv =~= Seq::<(Seq<char>, u32, u8)>::empty());
            }
        }
        let cores = match fs.read_dir("/cores") {
            Ok(v) => v,
            Err(e) => return Err(e),
        };
        let ghost cv = listing_view(cores@);
        assert(reliable ==> fs0.spec_listing("/cores"@) == Ok::<Seq<(Seq<char>, u32, u8)>, BootError>(cv));
        let kernel_dirs = match fs.read_dir("/kernels") {
            Ok(v) => v,
            Err(e) => return Err(e),
        };
        let ghost kv = listing_view(kernel_dirs@);
        assert(reliable ==> fs0.spec_listing("/kernels"@) == Ok::<Seq<(Seq<char>, u32, u8)>, BootError>(kv));
        let boot_state = match fs.read_file("/config/boot-state.toml") {
            Ok(bytes) => match BootStateConfig::parse(bytes.as_slice()) {
                Ok(c) => c,
                Err(_) => BootStateConfig::empty(),
            },
            Err(_) => BootStateConfig::empty(),
        };
        assert(fs.spec_files_reliable() == reliable);
        assert(forall|q: Seq<char>| #[trigger] fs.spec_contents(q) == fs0.spec_contents(q));
        assert(forall|q: Seq<char>| #[trigger] fs.spec_exists(q) == fs0.spec_exists(q));
        let ghost fsk = *fs;
        let kernels = match discover_kernels(fs, &kernel_dirs) {
            Ok(k) => k,
            Err(e) => {
                proof {
                    lemma_kernels_same_fs(fsk, fs0, kv, kv.len() as int);
                }
                return Err(e);
            },
        };
        proof {
            lemma_kernels_same_fs(fsk, fs0, kv, kv.len() as int);
        }
        let ghost fsi = *fs;
        let inits = discover_inits(fs, &cores);
        proof {
            lemma_inits_same_fs(fsi, fs0, cv, cv.len() as int);
        }
        let mut targets: Vec<BootTarget> = Vec::new();
        let mut factory_candidates: Vec<BootTarget> = Vec::new();
        let mut i: usize = 0;
        while i < images.len()
            invariant
                i <= images@.len(),
                all_normal(targets@),
                all_factory(factory_candidates@),
                iv == listing_view(images@),
                fs.spec_files_reliable() == reliable,
                reliable == fs0.spec_files_reliable(),
                forall|q: Seq<char>| #[trigger] fs.spec_listing(q) == fs0.spec_listing(q),
                forall|q: Seq<char>| #[trigger] fs.spec_contents(q) == fs0.spec_contents(q),
                forall|q: Seq<char>| #[trigger] fs.spec_exists(q) == fs0.spec_exists(q),
                reliable ==> views(targets@) == image_targets(fs0, iv, inits@, kernels@, i as int, ImageRole::Normal),
                reliable ==> views(factory_candidates@) == image_targets(fs0, iv, inits@, kernels@, i as int, ImageRole::Factory),
            decreases images@.len() - i,
        {
            let ghost fsc = *fs;
            let ghost e = iv[i as int];
            assert(e == (images@[i as int].name@, images@[i as int].inode, images@[i as int].file_type));
            let found = image_target(fs, &images[i], &inits, &kernels);
            proof {
                lemma_targets_same_fs(fsc, fs0, e, inits@, kernels@);
            }
            let ghost t_before = targets@;
            let ghost f_before = factory_candidates@;
            match found {
                Some((role, target)) => {
                    match role {
                        ImageRole::Normal => {
                            targets.push(target);
                            assert(views(targets@) =~= views(t_before).push(targets@.last()@));
                        },
                        ImageRole::Factory => {
                            factory_candidates.push(target);
                            assert(views(factory_candidates@) =~= views(f_before).push(factory_candidates@.last()@));
                        },
                        ImageRole::Recovery => {},
                    }
                },
                None => {},
            }
            i = i + 1;
        }
        let mut recovery_candidates: Vec<BootTarget> = Vec::new();
        let mut j: usize = 0;
        while j < recovery_dir.len()
            invariant
                j <= recovery_dir@.len(),
                all_recovery(recovery_candidates@),
                rv == listing_view(recovery_dir@),
                fs.spec_files_reliable() == reliable,
                reliable == fs0.spec_files_reliable(),
                forall|q: Seq<char>| #[trigger] fs.spec_listing(q) == fs0.spec_listing(q),
                forall|q: Seq<char>| #[trigger] fs.spec_contents(q) == fs0.spec_contents(q),
                forall|q: Seq<char>| #[trigger] fs.spec_exists(q) == fs0.spec_exists(q),
                reliable ==> views(recovery_candidates@) == recovery_targets(fs0, rv, inits@, kernels@, j as int),
            decreases recovery_dir@.len() - j,
        {
            let ghost fsc = *fs;
            let ghost e = rv[j as int];
            assert(e == (recovery_dir@[j as int].name@, recovery_dir@[j as int].inode, recovery_dir@[j as int].file_type));
            let found = recovery_target(fs, &recovery_dir[j], &inits, &kernels);
            proof {
                lemma_targets_same_fs(fsc, fs0, e, inits@, kernels@);
            }
            let ghost r_before = recovery_candidates@;
            match found {
                Some(target) => {
                    recovery_candidates.push(target);
                    assert(views(recovery_candidates@) =~= views(r_before).push(recovery_candidates@.last()@));
                },
                None => {},
            }
            j = j + 1;
        }
        let ghost t0 = targets@;
        let ghost r0 = recovery_candidates@;
        let ghost f0 = factory_candidates@;
        let ghost inits_v = inits@;
        let ghost kernels_v = kernels@;
        let res = BootCatalog::assemble(targets, recovery_candidates, factory_candidates, boot_state);
        proof {
            if res is Ok {
                let c = res->Ok_0;
                lemma_assembled_well_formed(t0, r0, f0, c.boot_state, c);
            }
            if reliable {
                assert(views(t0).len() == t0.len() && views(r0).len() == r0.len() && views(f0).len() == f0.len());
                if res is Ok {
                    let c = res->Ok_0;
                    let rs = choose|rs: Seq<BootTarget>|
                        rs.to_multiset() == r0.to_multiset() && newest_first(views(rs))
                            && pick_spec(views(rs), opt_ref(c.boot_state.recovery), opt_target_view(c.recovery));
                    let fs2 = choose|fs2: Seq<BootTarget>|
                        fs2.to_multiset() == f0.to_multiset() && newest_first(views(fs2))
                            && pick_spec(views(fs2), opt_ref(c.boot_state.factory), opt_target_view(c.factory));
                    assert(views(t0) == views(t0));
                    assert(views(r0) == views(r0) && views(rs) == views(rs));
                    assert(views(f0) == views(f0) && views(fs2) == views(fs2));
                }
                let u = choose|u: Seq<InitRecord>|
                    init_views(u) == inits_spec(fsi, cv, cores@.len() as int) && #[trigger] inits_v.to_multiset()
                        == u.to_multiset();
                assert(init_views(u) == init_views(u));
                assert(inits_newest_first(inits_v));
                assert(kernel_views(kernels_v) == kernel_views(kernels_v));
            }
        }
        res
    }
}

} // verus!
