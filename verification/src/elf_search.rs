//! Where the filesystem resolver looks for ELF files: trusted sources that
//! map a logical prefix onto a physical root (the longest prefix wins), and
//! the search order for a `DT_NEEDED` name (`DT_RUNPATH`, else `DT_RPATH`,
//! then the default directories).

use vstd::prelude::*;
use crate::elf::{
    ElfError, ElfMetadata, TrustedElfSource, absolute_normalized, dependency_name_ok, expand_search_entry,
    expanded_entry, validate_absolute_normalized, validate_dependency_name,
};
use crate::order::{chars_lt, lemma_chars_lt_asymmetric, lemma_chars_lt_total, lemma_chars_lt_transitive, str_lt};
use crate::path::{ExecPart, PathPart, parts_prefix, parts_starts_with, path_parts, path_parts_of};

verus! {

/// No later logical prefix sorts after an earlier one (longest and
/// lexicographically greatest first).
pub open spec fn prefixes_descending(v: Seq<Seq<char>>) -> bool {
    forall|i: int, j: int| 0 <= i < j < v.len() ==> !chars_lt(#[trigger] v[i], #[trigger] v[j])
}

pub open spec fn source_prefixes(v: Seq<TrustedElfSource>) -> Seq<Seq<char>> {
    Seq::new(v.len(), |i: int| v[i].spec_logical_prefix())
}

/// Trusted sources and default search directories.
pub struct FilesystemElfResolver {
    sources: Vec<TrustedElfSource>,
    default_search_paths: Vec<String>,
}

impl FilesystemElfResolver {
    #[verifier::type_invariant]
    spec fn ordered(&self) -> bool {
        prefixes_descending(source_prefixes(self.sources@))
    }

    pub closed spec fn spec_sources(&self) -> Seq<TrustedElfSource> {
        self.sources@
    }

    pub closed spec fn spec_search_paths(&self) -> Seq<Seq<char>> {
        Seq::new(self.default_search_paths@.len(), |i: int| self.default_search_paths@[i]@)
    }

    /// The trusted sources, in lookup order.
    pub fn sources(&self) -> (res: &[TrustedElfSource])
        ensures
            res@ == self.spec_sources(),
    {
        self.sources.as_slice()
    }

    pub fn new() -> (res: FilesystemElfResolver)
        ensures
            res.spec_sources().len() == 0,
            res.spec_search_paths().len() == 0,
    {
        FilesystemElfResolver { sources: Vec::new(), default_search_paths: Vec::new() }
    }

    /// Adds a trusted source; sources stay ordered by logical prefix,
    /// greatest first, a new source after those with an equal prefix.
    pub fn with_source(self, source: TrustedElfSource) -> (res: FilesystemElfResolver)
        ensures
            res.spec_sources().to_multiset() == self.spec_sources().to_multiset().insert(source),
            prefixes_descending(source_prefixes(res.spec_sources())),
            res.spec_search_paths() == self.spec_search_paths(),
    {
        proof {
            use_type_invariant(&self);
        }
        let FilesystemElfResolver { sources, default_search_paths } = self;
        let ghost old_sources = sources@;
        let mut sources = sources;
        let mut k: usize = 0;
        while k < sources.len() && !str_lt(sources[k].logical_prefix(), source.logical_prefix())
            invariant
                k <= sources@.len(),
                sources@ == old_sources,
                forall|j: int| 0 <= j < k ==> !chars_lt(#[trigger] sources@[j].spec_logical_prefix(), source.spec_logical_prefix()),
            decreases sources@.len() - k,
        {
            k = k + 1;
        }
        let ghost sv = source;
        sources.insert(k, source);
        proof {
            vstd::seq_lib::to_multiset_insert(old_sources, k as int, sv);
            let v = source_prefixes(sources@);
            let b = source_prefixes(old_sources);
            let x = sv.spec_logical_prefix();
            assert forall|i: int, j: int| 0 <= i < j < v.len() implies !chars_lt(#[trigger] v[i], #[trigger] v[j]) by {
                if j < k {
                    assert(v[i] == b[i] && v[j] == b[j]);
                } else if j == k {
                    assert(v[i] == b[i]);
                    assert(v[j] == x);
                    assert(!chars_lt(old_sources[i].spec_logical_prefix(), x));
                } else if i == k {
                    assert(v[i] == x);
                    assert(v[j] == b[j - 1]);
                    if k < old_sources.len() {
                        let kk = k as int;
                        assert(b[kk] == old_sources[kk].spec_logical_prefix());
                        assert(chars_lt(b[kk], x));
                        if chars_lt(x, b[j - 1]) {
                            if j - 1 == kk {
                                lemma_chars_lt_asymmetric(b[kk], x);
                            } else {
                                assert(!chars_lt(b[kk], b[j - 1]));
                                lemma_chars_lt_transitive(b[kk], x, b[j - 1]);
                            }
                        }
                    }
                } else if i < k {
                    assert(v[i] == b[i] && v[j] == b[j - 1]);
                    assert(!chars_lt(b[i], x));
                    lemma_chars_lt_total(b[i], x);
                    if chars_lt(b[i], b[j - 1]) {
                        if k < old_sources.len() {
                            let kk = k as int;
                            assert(b[kk] == old_sources[kk].spec_logical_prefix());
                            assert(chars_lt(b[kk], x));
                            if j - 1 > kk {
                                assert(!chars_lt(b[kk], b[j - 1]));
                            }
                        }
                    }
                } else {
                    assert(v[i] == b[i - 1] && v[j] == b[j - 1]);
                }
            }
        }
        FilesystemElfResolver { sources, default_search_paths }
    }

    /// Adds a default search directory; it must be absolute and free of
    /// `.` and `..`.
    pub fn with_default_search_path(self, path: String) -> (res: Result<FilesystemElfResolver, ElfError>)
        ensures
            res is Ok <==> absolute_normalized(path@),
            res matches Ok(r) ==> r.spec_search_paths() == self.spec_search_paths().push(path@)
                && r.spec_sources() == self.spec_sources(),
            res matches Err(e) ==> e is UnsupportedDependencyPath,
    {
        proof {
            use_type_invariant(&self);
        }
        match validate_absolute_normalized(path.as_str()) {
            Ok(()) => {},
            Err(e) => return Err(e),
        }
        let FilesystemElfResolver { sources, default_search_paths } = self;
        let ghost before = Seq::new(default_search_paths@.len(), |i: int| default_search_paths@[i]@);
        let mut paths = default_search_paths;
        let ghost pv = path@;
        paths.push(path);
        let r = FilesystemElfResolver { sources, default_search_paths: paths };
        assert(r.spec_search_paths() =~= before.push(pv));
        Ok(r)
    }

    /// The first source (in order) whose logical prefix contains `logical`
    /// component-wise, with the components of `logical` below the prefix.
    pub fn source_for(&self, logical: &str) -> (res: Option<(usize, Vec<ExecPart>)>)
        ensures
            match res {
                None => forall|i: int| 0 <= i < self.spec_sources().len() ==> !parts_prefix(
                    path_parts(utf8(#[trigger] self.spec_sources()[i].spec_logical_prefix())),
                    path_parts(utf8(logical@)),
                ),
                Some((i, rest)) => {
                    let p = path_parts(utf8(self.spec_sources()[i as int].spec_logical_prefix()));
                    let l = path_parts(utf8(logical@));
                    &&& i < self.spec_sources().len()
                    &&& parts_prefix(p, l)
                    &&& forall|j: int| 0 <= j < i ==> !parts_prefix(
                        path_parts(utf8(#[trigger] self.spec_sources()[j].spec_logical_prefix())),
                        l,
                    )
                    &&& rest.deep_view() == l.subrange(p.len() as int, l.len() as int)
                },
            },
    {
        let lp = path_parts_of(logical.as_bytes());
        let mut i: usize = 0;
        while i < self.sources.len()
            invariant
                i <= self.sources@.len(),
                lp.deep_view() == path_parts(utf8(logical@)),
                forall|j: int| 0 <= j < i ==> !parts_prefix(
                    path_parts(utf8(#[trigger] self.sources@[j].spec_logical_prefix())),
                    path_parts(utf8(logical@)),
                ),
            decreases self.sources@.len() - i,
        {
            let pp = path_parts_of(self.sources[i].logical_prefix().as_bytes());
            if parts_starts_with(&lp, &pp) {
                let mut rest: Vec<ExecPart> = Vec::new();
                let mut k = pp.len();
                while k < lp.len()
                    invariant
                        pp.len() <= k <= lp.len(),
                        rest.deep_view() == lp.deep_view().subrange(pp.len() as int, k as int),
                    decreases lp.len() - k,
                {
                    let ghost before = rest.deep_view();
                    let part = copy_part(&lp[k]);
                    rest.push(part);
                    assert(rest.deep_view() =~= before.push(lp.deep_view()[k as int]));
                    k = k + 1;
                    assert(rest.deep_view() =~= lp.deep_view().subrange(pp.len() as int, k as int));
                }
                return Some((i, rest));
            }
            i = i + 1;
        }
        None
    }
}

fn copy_part(p: &ExecPart) -> (res: ExecPart)
    ensures
        res.deep_view() == p.deep_view(),
{
    match p {
        ExecPart::RootDir => ExecPart::RootDir,
        ExecPart::CurDir => ExecPart::CurDir,
        ExecPart::ParentDir => ExecPart::ParentDir,
        ExecPart::Normal(v) => {
            let c = vstd::slice::slice_to_vec(v.as_slice());
            ExecPart::Normal(c)
        },
    }
}

pub open spec fn utf8(s: Seq<char>) -> Seq<u8> {
    vstd::utf8::encode_utf8(s)
}

/// The directory `$ORIGIN` stands for: the text before the requester's last
/// `/`, or `/` when that is empty (for the normalized absolute paths the
/// closure resolves, this is the parent directory).
pub open spec fn origin_of(r: Seq<char>) -> Seq<char> {
    let k = last_slash(r, r.len() as int);
    if k <= 0 {
        "/"@
    } else {
        r.subrange(0, k)
    }
}

/// Index of the last `/` before `end`, or -1.
pub open spec fn last_slash(r: Seq<char>, end: int) -> int
    decreases end,
{
    if end <= 0 {
        -1
    } else if r[end - 1] == '/' {
        end - 1
    } else {
        last_slash(r, end - 1)
    }
}

/// `Path::join` of a directory and a plain file name.
pub open spec fn join_name(dir: Seq<char>, name: Seq<char>) -> Seq<char> {
    if dir.len() > 0 && dir[dir.len() - 1] == '/' {
        dir + name
    } else {
        dir + "/"@ + name
    }
}

/// Candidates from the search entries from `i` on, stopping at the first
/// entry that does not expand to an absolute normalized directory (`true`
/// in the second component).
pub open spec fn entry_candidates(entries: Seq<Seq<char>>, origin: Seq<char>, name: Seq<char>, i: int) -> (Seq<Seq<char>>, bool)
    decreases entries.len() - i,
{
    if i < 0 || i >= entries.len() {
        (Seq::empty(), false)
    } else {
        match expanded_entry(entries[i], origin) {
            None => (Seq::empty(), true),
            Some(d) => {
                let (rest, failed) = entry_candidates(entries, origin, name, i + 1);
                (seq![join_name(d, name)] + rest, failed)
            },
        }
    }
}

/// The first entry from `i` on whose expansion fails, with `$ORIGIN`
/// replaced (the text the failure reports).
pub open spec fn failing_entry(entries: Seq<Seq<char>>, origin: Seq<char>, i: int) -> Seq<char>
    decreases entries.len() - i,
{
    if i < 0 || i >= entries.len() {
        Seq::empty()
    } else {
        match expanded_entry(entries[i], origin) {
            None => crate::elf::origin_replaced(entries[i], origin),
            Some(_) => failing_entry(entries, origin, i + 1),
        }
    }
}

/// How a `DT_NEEDED` name is to be resolved.
pub enum NeededLookup {
    /// An absolute name, taken as is (if a trusted source holds it).
    Absolute(String),
    /// Paths to try in order; when none exists, `failure` is the answer.
    Search { candidates: Vec<String>, failure: ElfError },
}

pub open spec fn strings_view(v: Seq<String>) -> Seq<Seq<char>> {
    Seq::new(v.len(), |i: int| v[i]@)
}

fn origin_exec(r: &str) -> (res: String)
    ensures
        res@ == origin_of(r@),
{
    let c = crate::text::chars_of(r);
    let mut end = c.len();
    while end > 0 && c[end - 1] != '/'
        invariant
            end <= c@.len(),
            last_slash(c@, c@.len() as int) == last_slash(c@, end as int),
        decreases end,
    {
        end = end - 1;
    }
    assert(last_slash(c@, end as int) == end as int - 1);
    if end <= 1 {
        String::from_str("/")
    } else {
        crate::text::string_from_chars(c.as_slice(), 0, end - 1)
    }
}

fn join_exec(dir: &str, name: &str) -> (res: String)
    ensures
        res@ == join_name(dir@, name@),
{
    let c = crate::text::chars_of(dir);
    let mut out = String::from_str(dir);
    if !(c.len() > 0 && c[c.len() - 1] == '/') {
        out.append("/");
    }
    out.append(name);
    out
}

impl FilesystemElfResolver {
    /// The lookup plan for `name` needed by `requester`: the name must be a
    /// valid dependency name; an absolute name is used as is; a name with
    /// another `/` is refused; otherwise each `DT_RUNPATH` directory (or,
    /// without one, each `DT_RPATH` directory) with `$ORIGIN` expanded, and
    /// then each default directory, joined with the name.
    pub fn needed_lookup(&self, requester: &str, metadata: &ElfMetadata, name: &str) -> (res: Result<NeededLookup, ElfError>)
        ensures
            !dependency_name_ok(name@) ==> (res matches Err(ElfError::InvalidDependencyName(n)) && n@ == name@),
            dependency_name_ok(name@) && name@[0] == '/' ==> (res matches Ok(NeededLookup::Absolute(n)) && n@ == name@),
            dependency_name_ok(name@) && name@[0] != '/' && name@.contains('/') ==> (res matches Err(ElfError::UnsupportedDependencyPath(n)) && n@ == name@),
            dependency_name_ok(name@) && !name@.contains('/') ==> (res matches Ok(NeededLookup::Search { candidates, failure }) && {
                let entries = if metadata@.runpath.len() > 0 { metadata@.runpath } else { metadata@.rpath };
                let (found, failed) = entry_candidates(entries, origin_of(requester@), name@, 0);
                &&& strings_view(candidates@) == if failed {
                    found
                } else {
                    found + self.spec_search_paths().map_values(|d: Seq<char>| join_name(d, name@))
                }
                &&& (failed ==> (failure matches ElfError::UnsupportedDependencyPath(p) && p@ == failing_entry(entries, origin_of(requester@), 0)))
                &&& (!failed ==> (failure matches ElfError::DependencyNotFound(n) && n@ == name@))
            }),
    {
        match validate_dependency_name(name) {
            Ok(()) => {},
            Err(e) => return Err(e),
        }
        let chars = crate::text::chars_of(name);
        if chars[0] == '/' {
            return Ok(NeededLookup::Absolute(String::from_str(name)));
        }
        let mut i: usize = 0;
        while i < chars.len()
            invariant
                dependency_name_ok(name@),
                name@[0] != '/',
                i <= chars@.len(),
                chars@ == name@,
                forall|j: int| 0 <= j < i ==> chars@[j] != '/',
            decreases chars@.len() - i,
        {
            if chars[i] == '/' {
                assert(name@.contains('/')) by {
                    assert(name@[i as int] == '/');
                }
                return Err(ElfError::UnsupportedDependencyPath(String::from_str(name)));
            }
            i = i + 1;
        }
        assert(!name@.contains('/'));
        let origin = origin_exec(requester);
        let entries = if metadata.runpath().len() > 0 {
            metadata.runpath()
        } else {
            metadata.rpath()
        };
        let ghost ev = crate::elf::strings_view(entries@);
        let mut found: Vec<String> = Vec::new();
        let mut k: usize = 0;
        while k < entries.len()
            invariant
                dependency_name_ok(name@),
                name@[0] != '/',
                !name@.contains('/'),
                origin@ == origin_of(requester@),
                ev == (if metadata@.runpath.len() > 0 { metadata@.runpath } else { metadata@.rpath }),
                k <= entries@.len(),
                ev == crate::elf::strings_view(entries@),
                strings_view(found@) + entry_candidates(ev, origin@, name@, k as int).0 == entry_candidates(ev, origin@, name@, 0).0,
                entry_candidates(ev, origin@, name@, k as int).1 == entry_candidates(ev, origin@, name@, 0).1,
                failing_entry(ev, origin@, k as int) == failing_entry(ev, origin@, 0),
            decreases entries@.len() - k,
        {
            assert(ev[k as int] == entries@[k as int]@);
            match expand_search_entry(entries[k].as_str(), origin.as_str()) {
                Ok(dir) => {
                    let ghost before = strings_view(found@);
                    let c = join_exec(dir.as_str(), name);
                    found.push(c);
                    assert(strings_view(found@) =~= before.push(c@));
                    assert(strings_view(found@) + entry_candidates(ev, origin@, name@, k + 1).0 =~= before
                        + entry_candidates(ev, origin@, name@, k as int).0);
                },
                Err(e) => {
                    assert(strings_view(found@) =~= strings_view(found@) + entry_candidates(ev, origin@, name@, k as int).0);
                    return Ok(NeededLookup::Search { candidates: found, failure: e });
                },
            }
            k = k + 1;
        }
        assert(strings_view(found@) =~= strings_view(found@) + entry_candidates(ev, origin@, name@, k as int).0);
        let ghost head = strings_view(found@);
        let mut d: usize = 0;
        while d < self.default_search_paths.len()
            invariant
                d <= self.default_search_paths@.len(),
                strings_view(found@) == head + self.spec_search_paths().subrange(0, d as int).map_values(|x: Seq<char>| join_name(x, name@)),
            decreases self.default_search_paths@.len() - d,
        {
            let ghost before = strings_view(found@);
            let c = join_exec(self.default_search_paths[d].as_str(), name);
            found.push(c);
            assert(self.spec_search_paths()[d as int] == self.default_search_paths@[d as int]@);
            assert(strings_view(found@) =~= before.push(c@));
            d = d + 1;
            assert(strings_view(found@) =~= head + self.spec_search_paths().subrange(0, d as int).map_values(|x: Seq<char>| join_name(x, name@)));
        }
        assert(self.spec_search_paths().subrange(0, d as int) =~= self.spec_search_paths());
        Ok(NeededLookup::Search { candidates: found, failure: ElfError::DependencyNotFound(String::from_str(name)) })
    }
}

} // verus!
