//! Domain model of a Luna bundle (independent of the `.lbp` container):
//! identity, version, kind and the resources it maps into the logical tree.

use vstd::prelude::*;
use crate::common::{BundleId, Version};
use crate::path::split_seq;
use crate::text::{all_ws, chars_of, trim_bounds, split_chars, str_eq};

verus! {

#[derive(Clone, Copy, Debug, PartialEq, Eq, Structural, Hash)]
pub enum BundleKind {
    Application,
    Component,
}

#[derive(Clone, Debug)]
pub struct BundleMetadata {
    id: BundleId,
    version: Version,
    kind: BundleKind,
}

impl BundleMetadata {
    pub closed spec fn spec_id(&self) -> Seq<char> {
        self.id@
    }

    pub closed spec fn spec_version(&self) -> Version {
        self.version
    }

    pub closed spec fn spec_kind(&self) -> BundleKind {
        self.kind
    }

    pub fn new(id: BundleId, version: Version, kind: BundleKind) -> (res: BundleMetadata)
        ensures
            res.spec_id() == id@,
            res.spec_version() == version,
            res.spec_kind() == kind,
    {
        BundleMetadata { id, version, kind }
    }

    pub fn id(&self) -> (res: &BundleId)
        ensures
            res@ == self.spec_id(),
    {
        &self.id
    }

    pub fn version(&self) -> (res: Version)
        ensures
            res == self.spec_version(),
    {
        self.version
    }

    pub fn kind(&self) -> (res: BundleKind)
        ensures
            res == self.spec_kind(),
    {
        self.kind
    }
}

/// A resource of a bundle: where it appears in the logical tree and where
/// its content comes from inside the bundle.
#[derive(Clone, Debug)]
pub struct BundleResource {
    logical_path: String,
    source_path: String,
}

impl BundleResource {
    pub closed spec fn spec_logical(&self) -> Seq<char> {
        self.logical_path@
    }

    pub closed spec fn spec_source(&self) -> Seq<char> {
        self.source_path@
    }

    pub fn new(logical_path: String, source_path: String) -> (res: BundleResource)
        ensures
            res.spec_logical() == logical_path@,
            res.spec_source() == source_path@,
    {
        BundleResource { logical_path, source_path }
    }

    pub fn logical_path(&self) -> (res: &str)
        ensures
            res@ == self.spec_logical(),
    {
        self.logical_path.as_str()
    }

    pub fn source_path(&self) -> (res: &str)
        ensures
            res@ == self.spec_source(),
    {
        self.source_path.as_str()
    }
}

#[derive(Clone, Debug)]
pub struct BundleManifest {
    metadata: BundleMetadata,
    resources: Vec<BundleResource>,
}

impl BundleManifest {
    pub closed spec fn spec_metadata(&self) -> BundleMetadata {
        self.metadata
    }

    pub closed spec fn spec_resources(&self) -> Seq<BundleResource> {
        self.resources@
    }

    /// A manifest with no resources yet.
    pub fn new(metadata: BundleMetadata) -> (res: BundleManifest)
        ensures
            res.spec_metadata() == metadata,
            res.spec_resources().len() == 0,
    {
        BundleManifest { metadata, resources: Vec::new() }
    }

    pub fn metadata(&self) -> (res: &BundleMetadata)
        ensures
            *res == self.spec_metadata(),
    {
        &self.metadata
    }

    pub fn resources(&self) -> (res: &[BundleResource])
        ensures
            res@ == self.spec_resources(),
    {
        self.resources.as_slice()
    }

    /// Appends a resource; earlier resources keep their order.
    pub fn add_resource(&mut self, resource: BundleResource)
        ensures
            final(self).spec_metadata() == old(self).spec_metadata(),
            final(self).spec_resources() == old(self).spec_resources().push(resource),
    {
        self.resources.push(resource);
    }
}

#[derive(Clone, Debug, PartialEq, Eq)]
pub enum BundleError {
    EmptyIdentifier,
    EmptyResourcePath,
    DuplicateResource(String),
    InvalidLogicalPath(String),
    InvalidSourcePath(String),
}

/// The kind of a `BundleError` with the path it reports.
pub ghost enum BundleFault {
    EmptyIdentifier,
    EmptyResourcePath,
    DuplicateResource(Seq<char>),
    InvalidLogicalPath(Seq<char>),
    InvalidSourcePath(Seq<char>),
}

pub open spec fn bundle_fault_of(e: BundleError) -> BundleFault {
    match e {
        BundleError::EmptyIdentifier => BundleFault::EmptyIdentifier,
        BundleError::EmptyResourcePath => BundleFault::EmptyResourcePath,
        BundleError::DuplicateResource(p) => BundleFault::DuplicateResource(p@),
        BundleError::InvalidLogicalPath(p) => BundleFault::InvalidLogicalPath(p@),
        BundleError::InvalidSourcePath(p) => BundleFault::InvalidSourcePath(p@),
    }
}

/// The description of a `BundleError`, with the path it reports.
pub open spec fn bundle_error_text(e: BundleError) -> Seq<char> {
    match e {
        BundleError::EmptyIdentifier => "bundle identifier is empty"@,
        BundleError::EmptyResourcePath => "bundle resource path is empty"@,
        BundleError::DuplicateResource(p) => "duplicate bundle resource: "@ + p@,
        BundleError::InvalidLogicalPath(p) => "invalid logical bundle path: "@ + p@,
        BundleError::InvalidSourcePath(p) => "invalid bundle source path: "@ + p@,
    }
}

impl BundleError {
    /// Human-readable description.
    pub fn message(&self) -> (res: String)
        ensures
            res@ == bundle_error_text(*self),
    {
        match self {
            BundleError::EmptyIdentifier => String::from_str("bundle identifier is empty"),
            BundleError::EmptyResourcePath => String::from_str("bundle resource path is empty"),
            BundleError::DuplicateResource(p) => {
                let mut s = String::from_str("duplicate bundle resource: ");
                s.append(p.as_str());
                s
            },
            BundleError::InvalidLogicalPath(p) => {
                let mut s = String::from_str("invalid logical bundle path: ");
                s.append(p.as_str());
                s
            },
            BundleError::InvalidSourcePath(p) => {
                let mut s = String::from_str("invalid bundle source path: ");
                s.append(p.as_str());
                s
            },
        }
    }
}

/// Some `/`-separated piece of `s` is `..`.
pub open spec fn has_dotdot_piece(s: Seq<char>) -> bool {
    exists|i: int| 0 <= i < split_seq(s, '/').len() && split_seq(s, '/')[i] == seq!['.', '.']
}

pub open spec fn logical_resource_ok(s: Seq<char>) -> bool {
    s.len() > 0 && s[0] == '/' && s.last() != '/' && !has_dotdot_piece(s)
}

pub open spec fn source_resource_ok(s: Seq<char>) -> bool {
    !(s.len() > 0 && s[0] == '/') && !has_dotdot_piece(s)
}

/// The check of resource `i`, given the ones before it.
pub open spec fn resource_check(r: Seq<BundleResource>, i: int) -> Result<(), BundleFault> {
    let l = r[i].spec_logical();
    let s = r[i].spec_source();
    if all_ws(l) || all_ws(s) {
        Err(BundleFault::EmptyResourcePath)
    } else if !logical_resource_ok(l) {
        Err(BundleFault::InvalidLogicalPath(l))
    } else if !source_resource_ok(s) {
        Err(BundleFault::InvalidSourcePath(s))
    } else if exists|j: int| 0 <= j < i && r[j].spec_logical() == l {
        Err(BundleFault::DuplicateResource(l))
    } else {
        Ok(())
    }
}

/// The first failing check among the first `n` resources.
pub open spec fn resources_check(r: Seq<BundleResource>, n: nat) -> Result<(), BundleFault>
    decreases n,
{
    if n == 0 {
        Ok(())
    } else {
        match resources_check(r, (n - 1) as nat) {
            Err(f) => Err(f),
            Ok(()) => resource_check(r, n - 1),
        }
    }
}

/// Validation of a whole manifest: a non-blank identifier, then every
/// resource in order.
pub open spec fn manifest_check(m: BundleManifest) -> Result<(), BundleFault> {
    if all_ws(m.spec_metadata().spec_id()) {
        Err(BundleFault::EmptyIdentifier)
    } else {
        resources_check(m.spec_resources(), m.spec_resources().len())
    }
}

proof fn lemma_resources_err(r: Seq<BundleResource>, i: nat, n: nat)
    requires
        i <= n,
        resources_check(r, i) is Err,
    ensures
        resources_check(r, n) == resources_check(r, i),
    decreases n - i,
{
    if i < n {
        lemma_resources_err(r, i, (n - 1) as nat);
    }
}

fn blank(value: &str) -> (res: bool)
    ensures
        res == all_ws(value@),
{
    let chars = chars_of(value);
    let (a, b) = trim_bounds(chars.as_slice());
    a == b
}

fn dotdot_piece(value: &str) -> (res: bool)
    ensures
        res == has_dotdot_piece(value@),
{
    let chars = chars_of(value);
    let pieces = split_chars(chars.as_slice(), '/');
    let mut i: usize = 0;
    while i < pieces.len()
        invariant
            pieces.deep_view() == split_seq(value@, '/'),
            i <= pieces@.len(),
            forall|j: int| 0 <= j < i ==> split_seq(value@, '/')[j] != seq!['.', '.'],
        decreases pieces@.len() - i,
    {
        let piece = &pieces[i];
        assert(piece@ == split_seq(value@, '/')[i as int]);
        if piece.len() == 2 && piece[0] == '.' && piece[1] == '.' {
            assert(piece@ =~= seq!['.', '.']);
            return true;
        }
        proof {
            if piece@ == seq!['.', '.'] {
                assert(piece@.len() == 2);
            }
        }
        i = i + 1;
    }
    false
}

fn first_last(value: &str) -> (res: (bool, bool))
    ensures
        res.0 == (value@.len() > 0 && value@[0] == '/'),
        res.1 == (value@.len() > 0 && value@.last() == '/'),
{
    let chars = chars_of(value);
    let n = chars.len();
    (n > 0 && chars[0] == '/', n > 0 && chars[n - 1] == '/')
}

/// Validates a bundle manifest (see `manifest_check`): the first problem
/// found is reported, with the offending path.
pub fn validate_manifest(manifest: &BundleManifest) -> (res: Result<(), BundleError>)
    ensures
        match manifest_check(*manifest) {
            Ok(()) => res is Ok,
            Err(f) => res matches Err(e) && bundle_fault_of(e) == f,
        },
{
    if blank(manifest.metadata.id.as_str()) {
        return Err(BundleError::EmptyIdentifier);
    }
    let ghost r = manifest.resources@;
    let mut i: usize = 0;
    while i < manifest.resources.len()
        invariant
            r == manifest.resources@,
            r == manifest.spec_resources(),
            !all_ws(manifest.spec_metadata().spec_id()),
            i <= r.len(),
            resources_check(r, i as nat) is Ok,
        decreases r.len() - i,
    {
        let resource = &manifest.resources[i];
        let logical = resource.logical_path.as_str();
        let source = resource.source_path.as_str();
        assert(logical@ == r[i as int].spec_logical());
        assert(source@ == r[i as int].spec_source());
        if blank(logical) || blank(source) {
            proof {
                lemma_resources_err(r, (i + 1) as nat, r.len());
            }
            return Err(BundleError::EmptyResourcePath);
        }
        let (lfirst, llast) = first_last(logical);
        if !lfirst || llast || dotdot_piece(logical) {
            proof {
                lemma_resources_err(r, (i + 1) as nat, r.len());
            }
            return Err(BundleError::InvalidLogicalPath(logical.to_owned()));
        }
        let (sfirst, _) = first_last(source);
        if sfirst || dotdot_piece(source) {
            proof {
                lemma_resources_err(r, (i + 1) as nat, r.len());
            }
            return Err(BundleError::InvalidSourcePath(source.to_owned()));
        }
        let mut j: usize = 0;
        while j < i
            invariant
                r == manifest.resources@,
                r == manifest.spec_resources(),
                !all_ws(manifest.spec_metadata().spec_id()),
                i < r.len(),
                j <= i,
                logical@ == r[i as int].spec_logical(),
                resources_check(r, i as nat) is Ok,
                !all_ws(r[i as int].spec_logical()) && !all_ws(r[i as int].spec_source()),
                logical_resource_ok(r[i as int].spec_logical()),
                source_resource_ok(r[i as int].spec_source()),
                forall|k: int| 0 <= k < j ==> r[k].spec_logical() != r[i as int].spec_logical(),
            decreases i - j,
        {
            if str_eq(manifest.resources[j].logical_path.as_str(), logical) {
                proof {
                    assert(r[j as int].spec_logical() == r[i as int].spec_logical());
                    lemma_resources_err(r, (i + 1) as nat, r.len());
                }
                return Err(BundleError::DuplicateResource(logical.to_owned()));
            }
            j = j + 1;
        }
        i = i + 1;
    }
    Ok(())
}

} // verus!
