//! The LBP1 manifest: its data model and the validation rules a manifest
//! must meet before it is packed or accepted from a container.

use vstd::prelude::*;
use crate::lbp::{LbpError, FORMAT_VERSION};
use crate::path::{
    ExecPart, PathPart, path_parts, path_parts_of, is_rooted, has_navigation,
    has_unsafe_relative_part, SLASH,
};
use crate::text::{
    all_ws, trim, parse_unsigned, chars_of, trim_bounds, parse_unsigned_chars, split_chars,
    has_prefix_at, str_eq,
};
use crate::path::split_seq;

verus! {

/// A parsed LBP1 manifest.
#[derive(Clone, Debug, PartialEq, Eq)]
pub struct LbpManifest {
    pub format: u16,
    pub bundle: BundleManifestInfo,
    pub platform: PlatformInfo,
    pub entry: Option<EntryPoint>,
    pub dependencies: Vec<Dependency>,
    pub capabilities: Capabilities,
    pub mappings: Vec<MappingDeclaration>,
    pub metadata: Metadata,
}

#[derive(Clone, Debug, PartialEq, Eq)]
pub struct BundleManifestInfo {
    pub id: String,
    pub name: String,
    pub version: String,
    pub kind: String,
}

#[derive(Clone, Debug, PartialEq, Eq)]
pub struct PlatformInfo {
    pub arch: String,
    pub min_system: Option<String>,
}

#[derive(Clone, Debug, PartialEq, Eq)]
pub struct EntryPoint {
    pub executable: String,
    pub logical: Option<String>,
}

#[derive(Clone, Debug, PartialEq, Eq)]
pub struct Dependency {
    pub id: String,
    pub version: String,
}

#[derive(Clone, Debug, PartialEq, Eq)]
pub struct Capabilities {
    pub requested: Vec<String>,
}

#[derive(Clone, Debug, PartialEq, Eq)]
pub struct MappingDeclaration {
    pub logical: String,
    pub source: String,
    pub access: Vec<String>,
}

#[derive(Clone, Debug, PartialEq, Eq)]
pub struct Metadata {
    pub author: Option<String>,
    pub license: Option<String>,
    pub homepage: Option<String>,
}

impl Default for Capabilities {
    fn default() -> (res: Capabilities)
        ensures
            res.requested@.len() == 0,
    {
        Capabilities { requested: Vec::new() }
    }
}

impl Default for Metadata {
    fn default() -> (res: Metadata)
        ensures
            res.author is None,
            res.license is None,
            res.homepage is None,
    {
        Metadata { author: None, license: None, homepage: None }
    }
}

// ---------------------------------------------------------------------------
// Rules
// ---------------------------------------------------------------------------

pub open spec fn word_application() -> Seq<char> {
    seq!['a', 'p', 'p', 'l', 'i', 'c', 'a', 't', 'i', 'o', 'n']
}

pub open spec fn word_component() -> Seq<char> {
    seq!['c', 'o', 'm', 'p', 'o', 'n', 'e', 'n', 't']
}

pub open spec fn word_x86_64() -> Seq<char> {
    seq!['x', '8', '6', '_', '6', '4']
}

/// The prefix `@dep:` of a mapping source that names a dependency.
pub open spec fn dep_prefix() -> Seq<char> {
    seq!['@', 'd', 'e', 'p', ':']
}

pub open spec fn is_dep_source(s: Seq<char>) -> bool {
    s.len() >= 5 && s.subrange(0, 5) == dep_prefix()
}

/// `MAJOR.MINOR.PATCH`: exactly three dot-separated fields, each a `u32`.
pub open spec fn version_of(s: Seq<char>) -> Option<(nat, nat, nat)> {
    let parts = split_seq(s, '.');
    if parts.len() != 3 {
        None
    } else {
        match (
            parse_unsigned(parts[0], u32::MAX as nat),
            parse_unsigned(parts[1], u32::MAX as nat),
            parse_unsigned(parts[2], u32::MAX as nat),
        ) {
            (Some(a), Some(b), Some(c)) => Some((a, b, c)),
            _ => None,
        }
    }
}

pub open spec fn version_ok(s: Seq<char>) -> bool {
    version_of(s) is Some
}

/// A dependency constraint without its comparison operator (`^`, `~`, `>=`,
/// `<=`, `>`, `<`, tried in that order).
pub open spec fn strip_constraint_op(t: Seq<char>) -> Seq<char> {
    if t.len() >= 1 && t[0] == '^' {
        t.drop_first()
    } else if t.len() >= 1 && t[0] == '~' {
        t.drop_first()
    } else if t.len() >= 2 && t[0] == '>' && t[1] == '=' {
        t.subrange(2, t.len() as int)
    } else if t.len() >= 2 && t[0] == '<' && t[1] == '=' {
        t.subrange(2, t.len() as int)
    } else if t.len() >= 1 && t[0] == '>' {
        t.drop_first()
    } else if t.len() >= 1 && t[0] == '<' {
        t.drop_first()
    } else {
        t
    }
}

/// An accepted dependency constraint: an optional operator and a version.
pub open spec fn constraint_ok(s: Seq<char>) -> bool {
    version_ok(strip_constraint_op(trim(s)))
}

/// An accepted logical path: absolute, not ending in `/`, and without `.`
/// or `..` components.
pub open spec fn logical_path_ok(s: Seq<char>) -> bool {
    let b = vstd::utf8::encode_utf8(s);
    is_rooted(b) && !(s.len() > 0 && s.last() == '/') && !has_navigation(b)
}

/// An accepted bundle-relative path: non-empty, relative, and without `.`,
/// `..` or root components.
pub open spec fn bundle_relative_ok(s: Seq<char>) -> bool {
    let b = vstd::utf8::encode_utf8(s);
    b.len() > 0 && !is_rooted(b) && !has_unsafe_relative_part(b)
}

pub open spec fn mapping_source_ok(s: Seq<char>) -> bool {
    if is_dep_source(s) {
        s.len() != 5
    } else {
        bundle_relative_ok(s)
    }
}

/// Mapping `i` is valid and its logical path differs from every earlier one.
pub open spec fn mapping_ok(m: Seq<MappingDeclaration>, i: int) -> bool {
    &&& logical_path_ok(m[i].logical@)
    &&& mapping_source_ok(m[i].source@)
    &&& forall|j: int| 0 <= j < i ==> m[j].logical@ != m[i].logical@
}

pub open spec fn dependency_ok(d: Dependency) -> bool {
    !all_ws(d.id@) && !all_ws(d.version@) && constraint_ok(d.version@)
}

pub open spec fn entry_ok(m: &LbpManifest) -> bool {
    match m.entry {
        Some(e) => bundle_relative_ok(e.executable@) && (e.logical matches Some(l) ==> logical_path_ok(
            l@,
        )),
        None => m.bundle.kind@ != word_application(),
    }
}

/// Every rule of a version-1 manifest.
pub open spec fn manifest_rules_ok(m: &LbpManifest) -> bool {
    &&& !all_ws(m.bundle.id@) && !all_ws(m.bundle.name@)
    &&& version_ok(m.bundle.version@)
    &&& (m.bundle.kind@ == word_application() || m.bundle.kind@ == word_component())
    &&& m.platform.arch@ == word_x86_64()
    &&& (m.platform.min_system matches Some(v) ==> version_ok(v@))
    &&& entry_ok(m)
    &&& forall|i: int| 0 <= i < m.mappings@.len() ==> mapping_ok(m.mappings@, i)
    &&& forall|i: int| 0 <= i < m.dependencies@.len() ==> dependency_ok(m.dependencies@[i])
    &&& forall|i: int|
        0 <= i < m.capabilities.requested@.len() ==> !all_ws(m.capabilities.requested@[i]@)
}

/// The message for a logical path that fails [`logical_path_ok`].
pub open spec fn logical_path_message(s: Seq<char>) -> Seq<char> {
    let b = vstd::utf8::encode_utf8(s);
    if !is_rooted(b) || (s.len() > 0 && s.last() == '/') {
        "logical path must be absolute and must not end with /"@
    } else {
        "logical path contains forbidden traversal"@
    }
}

/// The message for a path that fails [`bundle_relative_ok`].
pub open spec fn relative_path_message(s: Seq<char>) -> Seq<char> {
    let b = vstd::utf8::encode_utf8(s);
    if b.len() == 0 || is_rooted(b) {
        "invalid bundle-relative path: "@ + s
    } else {
        "unsafe bundle-relative path: "@ + s
    }
}

/// The message for mapping `i` when it fails [`mapping_ok`].
pub open spec fn mapping_message(m: Seq<MappingDeclaration>, i: int) -> Seq<char> {
    let l = m[i].logical@;
    let src = m[i].source@;
    if !logical_path_ok(l) {
        logical_path_message(l)
    } else if is_dep_source(src) && src.len() == 5 {
        "dependency mapping source must name a dependency"@
    } else if !is_dep_source(src) && !bundle_relative_ok(src) {
        relative_path_message(src)
    } else {
        "duplicate mapping: "@ + l
    }
}

/// The index of the first mapping from `i` on that fails, or the count.
pub open spec fn first_bad_mapping(m: Seq<MappingDeclaration>, i: int) -> int
    decreases m.len() - i,
{
    if i < 0 || i >= m.len() {
        m.len() as int
    } else if !mapping_ok(m, i) {
        i
    } else {
        first_bad_mapping(m, i + 1)
    }
}

/// The message for a dependency that fails [`dependency_ok`].
pub open spec fn dependency_message(d: Dependency) -> Seq<char> {
    if all_ws(d.id@) || all_ws(d.version@) {
        "dependency id/version must not be empty"@
    } else {
        "unsupported dependency version constraint"@
    }
}

/// The index of the first dependency from `i` on that fails, or the count.
pub open spec fn first_bad_dependency(d: Seq<Dependency>, i: int) -> int
    decreases d.len() - i,
{
    if i < 0 || i >= d.len() {
        d.len() as int
    } else if !dependency_ok(d[i]) {
        i
    } else {
        first_bad_dependency(d, i + 1)
    }
}

/// The message of the first rule a version-1 manifest breaks, in the order
/// the rules are checked.
pub open spec fn manifest_message(m: &LbpManifest) -> Seq<char> {
    if all_ws(m.bundle.id@) || all_ws(m.bundle.name@) {
        "bundle.id and bundle.name must not be empty"@
    } else if !version_ok(m.bundle.version@) {
        "bundle.version must be MAJOR.MINOR.PATCH"@
    } else if !(m.bundle.kind@ == word_application() || m.bundle.kind@ == word_component()) {
        "unsupported bundle.type"@
    } else if m.platform.arch@ != word_x86_64() {
        "unsupported platform.arch for LBP1"@
    } else if m.platform.min_system matches Some(v) && !version_ok(v@) {
        "platform.min_system must be MAJOR.MINOR.PATCH"@
    } else if !entry_ok(m) {
        match m.entry {
            Some(e) => if !bundle_relative_ok(e.executable@) {
                relative_path_message(e.executable@)
            } else {
                logical_path_message(e.logical->0@)
            },
            None => "application bundle requires entry"@,
        }
    } else if first_bad_mapping(m.mappings@, 0) < m.mappings@.len() {
        mapping_message(m.mappings@, first_bad_mapping(m.mappings@, 0))
    } else if first_bad_dependency(m.dependencies@, 0) < m.dependencies@.len() {
        dependency_message(m.dependencies@[first_bad_dependency(m.dependencies@, 0)])
    } else {
        "capability name must not be empty"@
    }
}

proof fn lemma_first_bad_mapping_skip(m: Seq<MappingDeclaration>, j: int, i: int)
    requires
        0 <= j <= i <= m.len(),
        forall|k: int| j <= k < i ==> mapping_ok(m, k),
    ensures
        first_bad_mapping(m, j) == first_bad_mapping(m, i),
    decreases i - j,
{
    if j < i {
        lemma_first_bad_mapping_skip(m, j + 1, i);
    }
}

proof fn lemma_first_bad_dependency_skip(d: Seq<Dependency>, j: int, i: int)
    requires
        0 <= j <= i <= d.len(),
        forall|k: int| j <= k < i ==> dependency_ok(d[k]),
    ensures
        first_bad_dependency(d, j) == first_bad_dependency(d, i),
    decreases i - j,
{
    if j < i {
        lemma_first_bad_dependency_skip(d, j + 1, i);
    }
}

// ---------------------------------------------------------------------------
// Checks
// ---------------------------------------------------------------------------

/// `MAJOR.MINOR.PATCH` of `chars`.
pub fn version_of_chars(chars: &[char]) -> (res: Option<(u32, u32, u32)>)
    ensures
        match version_of(chars@) {
            Some((a, b, c)) => res == Some((a as u32, b as u32, c as u32)),
            None => res is None,
        },
{
    let parts = split_chars(chars, '.');
    if parts.len() != 3 {
        return None;
    }
    proof {
        assert(parts[0]@ == parts.deep_view()[0]);
        assert(parts[1]@ == parts.deep_view()[1]);
        assert(parts[2]@ == parts.deep_view()[2]);
        assert(parts[0]@.subrange(0, parts[0]@.len() as int) =~= parts[0]@);
        assert(parts[1]@.subrange(0, parts[1]@.len() as int) =~= parts[1]@);
        assert(parts[2]@.subrange(0, parts[2]@.len() as int) =~= parts[2]@);
    }
    let major = match parse_unsigned_chars(parts[0].as_slice(), 0, parts[0].len(), 4294967295) {
        Some(v) => v,
        None => return None,
    };
    let minor = match parse_unsigned_chars(parts[1].as_slice(), 0, parts[1].len(), 4294967295) {
        Some(v) => v,
        None => return None,
    };
    let patch = match parse_unsigned_chars(parts[2].as_slice(), 0, parts[2].len(), 4294967295) {
        Some(v) => v,
        None => return None,
    };
    Some((major as u32, minor as u32, patch as u32))
}

/// Parses `MAJOR.MINOR.PATCH`.
pub fn parse_version(value: &str) -> (res: Option<(u32, u32, u32)>)
    ensures
        match version_of(value@) {
            Some((a, b, c)) => res == Some((a as u32, b as u32, c as u32)),
            None => res is None,
        },
{
    let chars = chars_of(value);
    version_of_chars(chars.as_slice())
}

fn format_error(message: &str) -> (res: LbpError)
    ensures
        res matches LbpError::ManifestFormat(m) && m@ == message@,
{
    LbpError::ManifestFormat(String::from_str(message))
}

/// Accepts a dependency version constraint (see `constraint_ok`).
pub fn validate_dependency_constraint(value: &str) -> (res: Result<(), LbpError>)
    ensures
        res is Ok <==> constraint_ok(value@),
        res matches Err(e) ==> (e matches LbpError::ManifestFormat(msg) && msg@ == "unsupported dependency version constraint"@),
{
    let chars = chars_of(value);
    let (a, b) = trim_bounds(chars.as_slice());
    let t = &chars.as_slice()[a..b];
    assert(t@ =~= trim(value@));
    let n = t.len();
    let skip: usize = if n >= 1 && t[0] == '^' {
        1
    } else if n >= 1 && t[0] == '~' {
        1
    } else if n >= 2 && t[0] == '>' && t[1] == '=' {
        2
    } else if n >= 2 && t[0] == '<' && t[1] == '=' {
        2
    } else if n >= 1 && t[0] == '>' {
        1
    } else if n >= 1 && t[0] == '<' {
        1
    } else {
        0
    };
    let stripped = &t[skip..n];
    assert(stripped@ =~= strip_constraint_op(t@));
    match version_of_chars(stripped) {
        Some(_) => Ok(()),
        None => Err(format_error("unsupported dependency version constraint")),
    }
}

/// Whether some component is `.` or `..`.
pub fn parts_have_navigation(parts: &Vec<ExecPart>) -> (res: bool)
    ensures
        res == exists|i: int|
            0 <= i < parts.deep_view().len() && (parts.deep_view()[i] == PathPart::CurDir
                || parts.deep_view()[i] == PathPart::ParentDir),
{
    let mut i: usize = 0;
    while i < parts.len()
        invariant
            i <= parts@.len(),
            forall|j: int|
                0 <= j < i ==> !(parts.deep_view()[j] == PathPart::CurDir || parts.deep_view()[j]
                    == PathPart::ParentDir),
        decreases parts@.len() - i,
    {
        match &parts[i] {
            ExecPart::CurDir => {
                assert(parts.deep_view()[i as int] == PathPart::CurDir);
                return true;
            },
            ExecPart::ParentDir => {
                assert(parts.deep_view()[i as int] == PathPart::ParentDir);
                return true;
            },
            _ => {},
        }
        i = i + 1;
    }
    false
}

/// Whether some component is `.`, `..` or the root.
pub fn parts_have_unsafe(parts: &Vec<ExecPart>) -> (res: bool)
    ensures
        res == exists|i: int|
            0 <= i < parts.deep_view().len() && (parts.deep_view()[i] == PathPart::CurDir
                || parts.deep_view()[i] == PathPart::ParentDir || parts.deep_view()[i]
                == PathPart::RootDir),
{
    let mut i: usize = 0;
    while i < parts.len()
        invariant
            i <= parts@.len(),
            forall|j: int|
                0 <= j < i ==> !(parts.deep_view()[j] == PathPart::CurDir || parts.deep_view()[j]
                    == PathPart::ParentDir || parts.deep_view()[j] == PathPart::RootDir),
        decreases parts@.len() - i,
    {
        match &parts[i] {
            ExecPart::Normal(_) => {},
            _ => {
                assert(parts.deep_view()[i as int] == PathPart::CurDir || parts.deep_view()[i as int]
                    == PathPart::ParentDir || parts.deep_view()[i as int] == PathPart::RootDir);
                return true;
            },
        }
        i = i + 1;
    }
    false
}

/// Accepts an absolute logical path without navigation components.
pub fn validate_logical_path(value: &str) -> (res: Result<(), LbpError>)
    ensures
        res is Ok <==> logical_path_ok(value@),
        res matches Err(e) ==> (e matches LbpError::ManifestFormat(msg) && msg@ == logical_path_message(value@)),
{
    let bytes = value.as_bytes();
    let chars = chars_of(value);
    let n = chars.len();
    if !(bytes.len() > 0 && bytes[0] == SLASH) || (n > 0 && chars[n - 1] == '/') {
        return Err(format_error("logical path must be absolute and must not end with /"));
    }
    let parts = path_parts_of(bytes);
    if parts_have_navigation(&parts) {
        return Err(format_error("logical path contains forbidden traversal"));
    }
    Ok(())
}

/// Accepts a non-empty relative path without `.`, `..` or root components.
pub fn validate_bundle_relative_path(value: &str) -> (res: Result<(), LbpError>)
    ensures
        res is Ok <==> bundle_relative_ok(value@),
        res matches Err(e) ==> (e matches LbpError::ManifestFormat(msg) && msg@ == relative_path_message(value@)),
{
    let bytes = value.as_bytes();
    if bytes.len() == 0 || bytes[0] == SLASH {
        let mut message = String::from_str("invalid bundle-relative path: ");
        message.append(value);
        return Err(LbpError::ManifestFormat(message));
    }
    let parts = path_parts_of(bytes);
    if parts_have_unsafe(&parts) {
        let mut message = String::from_str("unsafe bundle-relative path: ");
        message.append(value);
        return Err(LbpError::ManifestFormat(message));
    }
    Ok(())
}

fn is_blank(value: &str) -> (res: bool)
    ensures
        res == all_ws(value@),
{
    let chars = chars_of(value);
    let (a, b) = trim_bounds(chars.as_slice());
    a == b
}

fn word_eq(value: &str, word: &str) -> (res: bool)
    ensures
        res == (value@ == word@),
{
    str_eq(value, word)
}

impl LbpManifest {
    /// Checks every manifest rule. A format other than 1 is reported as
    /// `UnsupportedVersion`; any other broken rule as `ManifestFormat`.
    pub fn validate(&self) -> (res: Result<(), LbpError>)
        ensures
            self.format != 1 ==> res == Err::<(), LbpError>(LbpError::UnsupportedVersion(self.format)),
            self.format == 1 ==> (res is Ok <==> manifest_rules_ok(self)),
            self.format == 1 && res is Err ==> res->Err_0 is ManifestFormat,
            self.format == 1 && !manifest_rules_ok(self) ==> (res matches Err(LbpError::ManifestFormat(msg))
                && msg@ == manifest_message(self)),
    {
        if self.format != FORMAT_VERSION {
            return Err(LbpError::UnsupportedVersion(self.format));
        }
        if is_blank(self.bundle.id.as_str()) || is_blank(self.bundle.name.as_str()) {
            return Err(format_error("bundle.id and bundle.name must not be empty"));
        }
        if parse_version(self.bundle.version.as_str()).is_none() {
            return Err(format_error("bundle.version must be MAJOR.MINOR.PATCH"));
        }
        let is_application = word_eq(self.bundle.kind.as_str(), "application");
        let is_component = word_eq(self.bundle.kind.as_str(), "component");
        proof {
            reveal_strlit("application");
            reveal_strlit("component");
            reveal_strlit("x86_64");
            assert("application"@ =~= word_application());
            assert("component"@ =~= word_component());
            assert("x86_64"@ =~= word_x86_64());
        }
        if !is_application && !is_component {
            return Err(format_error("unsupported bundle.type"));
        }
        if !word_eq(self.platform.arch.as_str(), "x86_64") {
            return Err(format_error("unsupported platform.arch for LBP1"));
        }
        match &self.platform.min_system {
            Some(version) => {
                if parse_version(version.as_str()).is_none() {
                    return Err(format_error("platform.min_system must be MAJOR.MINOR.PATCH"));
                }
            },
            None => {},
        }
        match &self.entry {
            Some(entry) => {
                match validate_bundle_relative_path(entry.executable.as_str()) {
                    Ok(()) => {},
                    Err(e) => return Err(e),
                }
                match &entry.logical {
                    Some(logical) => match validate_logical_path(logical.as_str()) {
                        Ok(()) => {},
                        Err(e) => return Err(e),
                    },
                    None => {},
                }
            },
            None => {
                if is_application {
                    return Err(format_error("application bundle requires entry"));
                }
            },
        }
        match self.check_mappings() {
            Ok(()) => {},
            Err(e) => return Err(e),
        }
        match self.check_dependencies() {
            Ok(()) => {},
            Err(e) => return Err(e),
        }
        proof {
            reveal_strlit("capability name must not be empty");
        }
        assert(manifest_message(self) == "capability name must not be empty"@);
        let mut i: usize = 0;
        while i < self.capabilities.requested.len()
            invariant
                manifest_message(self) == "capability name must not be empty"@,
                self.format == 1,
                i <= self.capabilities.requested@.len(),
                forall|j: int| 0 <= j < i ==> !all_ws(self.capabilities.requested@[j]@),
            decreases self.capabilities.requested@.len() - i,
        {
            if is_blank(self.capabilities.requested[i].as_str()) {
                return Err(format_error("capability name must not be empty"));
            }
            i = i + 1;
        }
        Ok(())
    }

    fn check_mappings(&self) -> (res: Result<(), LbpError>)
        ensures
            res is Ok <==> forall|i: int| 0 <= i < self.mappings@.len() ==> mapping_ok(self.mappings@, i),
            res matches Err(e) ==> (e matches LbpError::ManifestFormat(msg) && msg@ == mapping_message(
                self.mappings@,
                first_bad_mapping(self.mappings@, 0),
            )),
            res is Err <==> first_bad_mapping(self.mappings@, 0) < self.mappings@.len(),
    {
        let ghost m = self.mappings@;
        proof {
            reveal_strlit("@dep:");
            assert("@dep:"@ =~= dep_prefix());
        }
        let mut i: usize = 0;
        while i < self.mappings.len()
            invariant
                m == self.mappings@,
                i <= m.len(),
                forall|k: int| 0 <= k < i ==> mapping_ok(m, k),
                "@dep:"@ == dep_prefix(),
            decreases m.len() - i,
        {
            let mapping = &self.mappings[i];
            match validate_logical_path(mapping.logical.as_str()) {
                Ok(()) => {},
                Err(e) => {
                    assert(!mapping_ok(m, i as int));
                    proof {
                        lemma_first_bad_mapping_skip(m, 0, i as int);
                    }
                    return Err(e);
                },
            }
            let source = chars_of(mapping.source.as_str());
            let dep = chars_of("@dep:");
            if has_prefix_at(source.as_slice(), 0, dep.as_slice()) {
                assert(is_dep_source(m[i as int].source@));
                if source.len() == 5 {
                    assert(!mapping_ok(m, i as int));
                    proof {
                        lemma_first_bad_mapping_skip(m, 0, i as int);
                    }
                    return Err(format_error("dependency mapping source must name a dependency"));
                }
            } else {
                assert(!is_dep_source(m[i as int].source@));
                match validate_bundle_relative_path(mapping.source.as_str()) {
                    Ok(()) => {},
                    Err(e) => {
                        assert(!mapping_ok(m, i as int));
                        proof {
                            lemma_first_bad_mapping_skip(m, 0, i as int);
                        }
                        return Err(e);
                    },
                }
            }
            assert(logical_path_ok(m[i as int].logical@) && mapping_source_ok(m[i as int].source@));
            let mut j: usize = 0;
            while j < i
                invariant
                    m == self.mappings@,
                    i < m.len(),
                    j <= i,
                    mapping.logical@ == m[i as int].logical@,
                    forall|k: int| 0 <= k < j ==> m[k].logical@ != m[i as int].logical@,
                    forall|k: int| 0 <= k < i ==> mapping_ok(m, k),
                    logical_path_ok(m[i as int].logical@) && mapping_source_ok(m[i as int].source@),
                decreases i - j,
            {
                if str_eq(self.mappings[j].logical.as_str(), mapping.logical.as_str()) {
                    assert(m[j as int].logical@ == m[i as int].logical@);
                    assert(!mapping_ok(m, i as int));
                    proof {
                        lemma_first_bad_mapping_skip(m, 0, i as int);
                    }
                    let mut message = String::from_str("duplicate mapping: ");
                    message.append(mapping.logical.as_str());
                    return Err(LbpError::ManifestFormat(message));
                }
                j = j + 1;
            }
            assert(mapping_ok(m, i as int));
            i = i + 1;
        }
        proof {
            lemma_first_bad_mapping_skip(m, 0, m.len() as int);
        }
        Ok(())
    }

    fn check_dependencies(&self) -> (res: Result<(), LbpError>)
        ensures
            res is Ok <==> forall|i: int|
                0 <= i < self.dependencies@.len() ==> dependency_ok(self.dependencies@[i]),
            res matches Err(e) ==> (e matches LbpError::ManifestFormat(msg) && msg@ == dependency_message(
                self.dependencies@[first_bad_dependency(self.dependencies@, 0)],
            )),
            res is Err <==> first_bad_dependency(self.dependencies@, 0) < self.dependencies@.len(),
    {
        let mut i: usize = 0;
        while i < self.dependencies.len()
            invariant
                i <= self.dependencies@.len(),
                forall|k: int| 0 <= k < i ==> dependency_ok(self.dependencies@[k]),
            decreases self.dependencies@.len() - i,
        {
            let dependency = &self.dependencies[i];
            if is_blank(dependency.id.as_str()) || is_blank(dependency.version.as_str()) {
                proof {
                    lemma_first_bad_dependency_skip(self.dependencies@, 0, i as int);
                }
                return Err(format_error("dependency id/version must not be empty"));
            }
            match validate_dependency_constraint(dependency.version.as_str()) {
                Ok(()) => {},
                Err(e) => {
                    proof {
                        lemma_first_bad_dependency_skip(self.dependencies@, 0, i as int);
                    }
                    return Err(e);
                },
            }
            i = i + 1;
        }
        proof {
            lemma_first_bad_dependency_skip(self.dependencies@, 0, self.dependencies@.len() as int);
        }
        Ok(())
    }
}

} // verus!
