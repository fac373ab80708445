//! The filesystem roots the system runtime selects for one application
//! launch, checked before any staging directory or process is created.

use vstd::prelude::*;
use crate::path::{
    ExecPart, SLASH, dot_seg, dotdot_seg, is_rooted, parts_eq, parts_prefix, parts_starts_with,
    path_parts, path_parts_of, split_seq, split_slashes,
};
use crate::runtime::RuntimeError;

verus! {

/// A path with a `.` or `..` segment (before any normalisation).
pub open spec fn has_dot_segment(p: Seq<u8>) -> bool {
    exists|i: int|
        0 <= i < split_seq(p, SLASH).len() && (#[trigger] split_seq(p, SLASH)[i] == dot_seg()
            || split_seq(p, SLASH)[i] == dotdot_seg())
}

pub open spec fn utf8(s: Seq<char>) -> Seq<u8> {
    vstd::utf8::encode_utf8(s)
}

/// The host root `/`, as components.
pub open spec fn host_root_parts() -> Seq<crate::path::PathPart> {
    path_parts(seq![SLASH])
}

/// Why a pair of roots is refused, if it is: both must be absolute, free of
/// `.` and `..`, neither the host root, and the staging parent must lie
/// outside the base root.
pub open spec fn launch_roots_error(base: Seq<u8>, staging: Seq<u8>) -> Option<Seq<char>> {
    if !is_rooted(base) || !is_rooted(staging) {
        Some("launch context roots must be absolute paths"@)
    } else if has_dot_segment(base) || has_dot_segment(staging) {
        Some("launch context roots must not contain '.' or '..' components"@)
    } else if path_parts(base) == host_root_parts() {
        Some("base root must not be the host root"@)
    } else if path_parts(staging) == host_root_parts() {
        Some("staging parent must not be the host root"@)
    } else if parts_prefix(path_parts(base), path_parts(staging)) {
        Some("staging parent must be outside base root"@)
    } else {
        None
    }
}

/// The execution environment of one launch: the base root of the logical
/// filesystem and the parent directory of per-launch staging.
#[derive(Clone, Debug)]
pub struct ApplicationLaunchContext {
    base_root: String,
    staging_parent: String,
}

fn has_dot_segment_exec(p: &[u8]) -> (res: bool)
    ensures
        res == has_dot_segment(p@),
{
    let segs = split_slashes(p);
    let ghost sv = segs.deep_view();
    assert(sv == split_seq(p@, SLASH));
    let mut i: usize = 0;
    while i < segs.len()
        invariant
            sv == segs.deep_view(),
            sv == split_seq(p@, SLASH),
            i <= sv.len(),
            forall|j: int| 0 <= j < i ==> !(#[trigger] sv[j] == dot_seg() || sv[j] == dotdot_seg()),
        decreases sv.len() - i,
    {
        let s = &segs[i];
        assert(s@ == sv[i as int]);
        let n = s.len();
        if (n == 1 && s[0] == 46) || (n == 2 && s[0] == 46 && s[1] == 46) {
            assert(sv[i as int] == dot_seg() || sv[i as int] == dotdot_seg()) by {
                if n == 1 {
                    assert(s@ =~= dot_seg());
                } else {
                    assert(s@ =~= dotdot_seg());
                }
            }
            return true;
        }
        assert(!(sv[i as int] == dot_seg() || sv[i as int] == dotdot_seg())) by {
            if sv[i as int] == dot_seg() {
                assert(s@.len() == 1 && s@[0] == 46);
            }
            if sv[i as int] == dotdot_seg() {
                assert(s@.len() == 2 && s@[0] == 46 && s@[1] == 46);
            }
        }
        i = i + 1;
    }
    false
}

impl ApplicationLaunchContext {
    pub closed spec fn spec_base_root(&self) -> Seq<char> {
        self.base_root@
    }

    pub closed spec fn spec_staging_parent(&self) -> Seq<char> {
        self.staging_parent@
    }

    pub fn new(base_root: String, staging_parent: String) -> (res: ApplicationLaunchContext)
        ensures
            res.spec_base_root() == base_root@,
            res.spec_staging_parent() == staging_parent@,
    {
        ApplicationLaunchContext { base_root, staging_parent }
    }

    pub fn base_root(&self) -> (res: &str)
        ensures
            res@ == self.spec_base_root(),
    {
        self.base_root.as_str()
    }

    pub fn staging_parent(&self) -> (res: &str)
        ensures
            res@ == self.spec_staging_parent(),
    {
        self.staging_parent.as_str()
    }

    /// Checks the roots (see [`launch_roots_error`]); a refusal is a
    /// staging error with the reason.
    pub fn validate(&self) -> (res: Result<(), RuntimeError>)
        ensures
            match launch_roots_error(utf8(self.spec_base_root()), utf8(self.spec_staging_parent())) {
                None => res is Ok,
                Some(m) => res matches Err(RuntimeError::Staging(s)) && s@ == m,
            },
    {
        let base = self.base_root.as_str().as_bytes();
        let staging = self.staging_parent.as_str().as_bytes();
        if base.len() == 0 || base[0] != SLASH || staging.len() == 0 || staging[0] != SLASH {
            return Err(RuntimeError::Staging(String::from_str("launch context roots must be absolute paths")));
        }
        if has_dot_segment_exec(base) || has_dot_segment_exec(staging) {
            return Err(
                RuntimeError::Staging(
                    String::from_str("launch context roots must not contain '.' or '..' components"),
                ),
            );
        }
        let base_parts = path_parts_of(base);
        let staging_parts = path_parts_of(staging);
        let slash: [u8; 1] = [SLASH];
        assert(slash@ =~= seq![SLASH]);
        let root_parts = path_parts_of(slash.as_slice());
        if parts_eq(&base_parts, &root_parts) {
            return Err(RuntimeError::Staging(String::from_str("base root must not be the host root")));
        }
        if parts_eq(&staging_parts, &root_parts) {
            return Err(RuntimeError::Staging(String::from_str("staging parent must not be the host root")));
        }
        if parts_starts_with(&staging_parts, &base_parts) {
            return Err(RuntimeError::Staging(String::from_str("staging parent must be outside base root")));
        }
        Ok(())
    }
}

} // verus!
