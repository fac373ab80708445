//! Unix path structure over raw bytes: separator splitting and the
//! component decomposition used for path comparison and validation.

use vstd::prelude::*;

verus! {

pub const SLASH: u8 = 47;
pub const DOT: u8 = 46;

/// Splitting state after the first `i` elements: completed pieces and the
/// piece being collected.
pub open spec fn split_acc<T>(s: Seq<T>, sep: T, i: nat) -> (Seq<Seq<T>>, Seq<T>)
    decreases i,
{
    if i == 0 || i > s.len() {
        (Seq::empty(), Seq::empty())
    } else {
        let (done, cur) = split_acc(s, sep, (i - 1) as nat);
        if s[i - 1] == sep {
            (done.push(cur), Seq::empty())
        } else {
            (done, cur.push(s[i - 1]))
        }
    }
}

/// The pieces of `s` between occurrences of `sep` (as `str::split`): there
/// is always one more piece than separators.
pub open spec fn split_seq<T>(s: Seq<T>, sep: T) -> Seq<Seq<T>> {
    let (done, cur) = split_acc(s, sep, s.len());
    done.push(cur)
}

/// One component of a Unix path.
pub ghost enum PathPart {
    RootDir,
    CurDir,
    ParentDir,
    Normal(Seq<u8>),
}

pub open spec fn dot_seg() -> Seq<u8> {
    seq![DOT]
}

pub open spec fn dotdot_seg() -> Seq<u8> {
    seq![DOT, DOT]
}

/// The component (if any) contributed by one separator-delimited segment:
/// empty and `.` segments vanish.
pub open spec fn segment_parts(seg: Seq<u8>) -> Seq<PathPart> {
    if seg.len() == 0 || seg == dot_seg() {
        Seq::empty()
    } else if seg == dotdot_seg() {
        seq![PathPart::ParentDir]
    } else {
        seq![PathPart::Normal(seg)]
    }
}

pub open spec fn segments_parts(segs: Seq<Seq<u8>>) -> Seq<PathPart>
    decreases segs.len(),
{
    if segs.len() == 0 {
        Seq::empty()
    } else {
        segments_parts(segs.drop_last()) + segment_parts(segs.last())
    }
}

pub open spec fn is_rooted(p: Seq<u8>) -> bool {
    p.len() > 0 && p[0] == SLASH
}

/// The components of a Unix path, as `Path::components` yields them: a
/// leading root, a leading `.` of a relative path, and then every non-empty
/// segment other than `.`.
pub open spec fn path_parts(p: Seq<u8>) -> Seq<PathPart> {
    let segs = split_seq(p, SLASH);
    if is_rooted(p) {
        seq![PathPart::RootDir] + segments_parts(segs)
    } else if segs[0] == dot_seg() {
        seq![PathPart::CurDir] + segments_parts(segs.drop_first())
    } else {
        segments_parts(segs)
    }
}

/// True when some component is `.` or `..`.
pub open spec fn has_navigation(p: Seq<u8>) -> bool {
    exists|i: int|
        0 <= i < path_parts(p).len() && (path_parts(p)[i] == PathPart::CurDir || path_parts(p)[i]
            == PathPart::ParentDir)
}

/// True when some component is `..`, the root, or `.`.
pub open spec fn has_unsafe_relative_part(p: Seq<u8>) -> bool {
    exists|i: int|
        0 <= i < path_parts(p).len() && (path_parts(p)[i] == PathPart::CurDir || path_parts(p)[i]
            == PathPart::ParentDir || path_parts(p)[i] == PathPart::RootDir)
}

/// Component-wise prefix (as `Path::starts_with`).
pub open spec fn parts_prefix(prefix: Seq<PathPart>, p: Seq<PathPart>) -> bool {
    prefix.len() <= p.len() && p.subrange(0, prefix.len() as int) == prefix
}

/// Executable path component.
#[derive(Clone, Debug)]
pub enum ExecPart {
    RootDir,
    CurDir,
    ParentDir,
    Normal(Vec<u8>),
}

impl DeepView for ExecPart {
    type V = PathPart;

    open spec fn deep_view(&self) -> PathPart {
        match self {
            ExecPart::RootDir => PathPart::RootDir,
            ExecPart::CurDir => PathPart::CurDir,
            ExecPart::ParentDir => PathPart::ParentDir,
            ExecPart::Normal(v) => PathPart::Normal(v@),
        }
    }
}

/// Equality of byte slices.
pub fn bytes_eq(a: &[u8], b: &[u8]) -> (res: bool)
    ensures
        res == (a@ == b@),
{
    if a.len() != b.len() {
        return false;
    }
    let mut i: usize = 0;
    while i < a.len()
        invariant
            a@.len() == b@.len(),
            i <= a@.len(),
            forall|j: int| 0 <= j < i ==> a@[j] == b@[j],
        decreases a@.len() - i,
    {
        if a[i] != b[i] {
            return false;
        }
        i = i + 1;
    }
    assert(a@ =~= b@);
    true
}

pub proof fn lemma_split_step<T>(s: Seq<T>, sep: T, i: nat)
    requires
        i < s.len(),
    ensures
        split_acc(s, sep, i + 1) == (if s[i as int] == sep {
            (split_acc(s, sep, i).0.push(split_acc(s, sep, i).1), Seq::<T>::empty())
        } else {
            (split_acc(s, sep, i).0, split_acc(s, sep, i).1.push(s[i as int]))
        }),
{
}

/// The separator-delimited segments of a byte path.
pub fn split_slashes(p: &[u8]) -> (res: Vec<Vec<u8>>)
    ensures
        res.deep_view() == split_seq(p@, SLASH),
{
    let mut done: Vec<Vec<u8>> = Vec::new();
    let mut cur: Vec<u8> = Vec::new();
    let mut i: usize = 0;
    while i < p.len()
        invariant
            i <= p@.len(),
            done.deep_view() == split_acc(p@, SLASH, i as nat).0,
            cur@ == split_acc(p@, SLASH, i as nat).1,
        decreases p@.len() - i,
    {
        proof {
            lemma_split_step(p@, SLASH, i as nat);
        }
        if p[i] == SLASH {
            let ghost before = done.deep_view();
            let piece = cur;
            assert(piece.deep_view() =~= piece@);
            done.push(piece);
            cur = Vec::new();
            proof {
                assert(done.deep_view() =~= before.push(split_acc(p@, SLASH, i as nat).1));
            }
        } else {
            cur.push(p[i]);
        }
        i = i + 1;
    }
    let ghost before = done.deep_view();
    assert(cur.deep_view() =~= cur@);
    done.push(cur);
    proof {
        assert(done.deep_view() =~= before.push(split_acc(p@, SLASH, p@.len()).1));
    }
    done
}

/// The pieces of `p` between occurrences of `sep`.
pub fn split_bytes(p: &[u8], sep: u8) -> (res: Vec<Vec<u8>>)
    ensures
        res.deep_view() == split_seq(p@, sep),
{
    let mut done: Vec<Vec<u8>> = Vec::new();
    let mut cur: Vec<u8> = Vec::new();
    let mut i: usize = 0;
    while i < p.len()
        invariant
            i <= p@.len(),
            done.deep_view() == split_acc(p@, sep, i as nat).0,
            cur@ == split_acc(p@, sep, i as nat).1,
        decreases p@.len() - i,
    {
        proof {
            lemma_split_step(p@, sep, i as nat);
        }
        if p[i] == sep {
            let ghost before = done.deep_view();
            let piece = cur;
            assert(piece.deep_view() =~= piece@);
            done.push(piece);
            cur = Vec::new();
            proof {
                assert(done.deep_view() =~= before.push(split_acc(p@, sep, i as nat).1));
            }
        } else {
            cur.push(p[i]);
        }
        i = i + 1;
    }
    let ghost before = done.deep_view();
    assert(cur.deep_view() =~= cur@);
    done.push(cur);
    proof {
        assert(done.deep_view() =~= before.push(split_acc(p@, sep, p@.len()).1));
    }
    done
}

fn is_dot_seg(seg: &[u8]) -> (res: bool)
    ensures
        res == (seg@ == dot_seg()),
{
    let r = seg.len() == 1 && seg[0] == DOT;
    proof {
        if r {
            assert(seg@ =~= dot_seg());
        }
    }
    r
}

fn is_dotdot_seg(seg: &[u8]) -> (res: bool)
    ensures
        res == (seg@ == dotdot_seg()),
{
    let r = seg.len() == 2 && seg[0] == DOT && seg[1] == DOT;
    proof {
        if r {
            assert(seg@ =~= dotdot_seg());
        }
    }
    r
}

/// Appends the components of segments `segs[from..]`.
fn push_segment_parts(out: &mut Vec<ExecPart>, segs: &Vec<Vec<u8>>, from: usize)
    requires
        from <= segs@.len(),
    ensures
        final(out).deep_view() == old(out).deep_view() + segments_parts(
            segs.deep_view().subrange(from as int, segs@.len() as int),
        ),
{
    let ghost start = out.deep_view();
    let mut j: usize = from;
    proof {
        assert(segs.deep_view().subrange(from as int, from as int) =~= Seq::<Seq<u8>>::empty());
        assert(start + Seq::<PathPart>::empty() =~= start);
    }
    while j < segs.len()
        invariant
            from <= j <= segs@.len(),
            start == old(out).deep_view(),
            out.deep_view() == start + segments_parts(
                segs.deep_view().subrange(from as int, j as int),
            ),
        decreases segs@.len() - j,
    {
        let seg = &segs[j];
        let ghost before = out.deep_view();
        assert(seg.deep_view() =~= seg@);
        assert(segs.deep_view()[j as int] == seg.deep_view());
        let ghost sub = segs.deep_view().subrange(from as int, j + 1);
        proof {
            assert(sub.drop_last() =~= segs.deep_view().subrange(from as int, j as int));
            assert(sub.last() == seg@);
        }
        if seg.len() == 0 || is_dot_seg(seg.as_slice()) {
            proof {
                assert(out.deep_view() =~= start + segments_parts(sub));
            }
        } else if is_dotdot_seg(seg.as_slice()) {
            out.push(ExecPart::ParentDir);
            proof {
                assert(out.deep_view() =~= before.push(PathPart::ParentDir));
                assert(segment_parts(seg@) == seq![PathPart::ParentDir]);
                assert(out.deep_view() =~= start + segments_parts(sub));
            }
        } else {
            let c = seg.clone();
            assert(c@ =~= seg@);
            out.push(ExecPart::Normal(c));
            proof {
                assert(out.deep_view() =~= before.push(PathPart::Normal(seg@)));
                assert(segment_parts(seg@) == seq![PathPart::Normal(seg@)]);
                assert(out.deep_view() =~= start + segments_parts(sub));
            }
        }
        j = j + 1;
    }
}

/// The components of a byte path (see `path_parts`).
pub fn path_parts_of(p: &[u8]) -> (res: Vec<ExecPart>)
    ensures
        res.deep_view() == path_parts(p@),
{
    let segs = split_slashes(p);
    let mut out: Vec<ExecPart> = Vec::new();
    proof {
        assert(segs.deep_view().len() >= 1);
    }
    if p.len() > 0 && p[0] == SLASH {
        out.push(ExecPart::RootDir);
        assert(out.deep_view() =~= seq![PathPart::RootDir]);
        push_segment_parts(&mut out, &segs, 0);
        proof {
            assert(segs.deep_view().subrange(0, segs@.len() as int) =~= segs.deep_view());
        }
    } else if is_dot_seg(segs[0].as_slice()) {
        assert(segs[0].deep_view() =~= segs[0]@);
        out.push(ExecPart::CurDir);
        assert(out.deep_view() =~= seq![PathPart::CurDir]);
        assert(segs[0]@ =~= segs.deep_view()[0]);
        push_segment_parts(&mut out, &segs, 1);
        proof {
            assert(segs.deep_view().subrange(1, segs@.len() as int) =~= segs.deep_view().drop_first());
        }
    } else {
        assert(segs[0].deep_view() =~= segs[0]@);
        push_segment_parts(&mut out, &segs, 0);
        proof {
            assert(out.deep_view() =~= Seq::<PathPart>::empty() + segments_parts(segs.deep_view().subrange(0, segs@.len() as int)));
            assert(segs.deep_view().subrange(0, segs@.len() as int) =~= segs.deep_view());
            assert(Seq::<PathPart>::empty() + segments_parts(segs.deep_view()) =~= segments_parts(segs.deep_view()));
        }
    }
    out
}

/// Equality of one component.
pub fn part_eq(a: &ExecPart, b: &ExecPart) -> (res: bool)
    ensures
        res == (a.deep_view() == b.deep_view()),
{
    match (a, b) {
        (ExecPart::RootDir, ExecPart::RootDir) => true,
        (ExecPart::CurDir, ExecPart::CurDir) => true,
        (ExecPart::ParentDir, ExecPart::ParentDir) => true,
        (ExecPart::Normal(x), ExecPart::Normal(y)) => bytes_eq(x.as_slice(), y.as_slice()),
        _ => false,
    }
}

/// Whether `prefix` is a component-wise prefix of `p`.
pub fn parts_starts_with(p: &Vec<ExecPart>, prefix: &Vec<ExecPart>) -> (res: bool)
    ensures
        res == parts_prefix(prefix.deep_view(), p.deep_view()),
{
    if prefix.len() > p.len() {
        return false;
    }
    let mut i: usize = 0;
    while i < prefix.len()
        invariant
            prefix@.len() <= p@.len(),
            i <= prefix@.len(),
            forall|j: int| 0 <= j < i ==> p.deep_view()[j] == prefix.deep_view()[j],
        decreases prefix@.len() - i,
    {
        if !part_eq(&p[i], &prefix[i]) {
            assert(p.deep_view().subrange(0, prefix@.len() as int)[i as int] != prefix.deep_view()[i as int]);
            return false;
        }
        i = i + 1;
    }
    assert(p.deep_view().subrange(0, prefix@.len() as int) =~= prefix.deep_view());
    true
}

/// Whether two component lists are equal.
pub fn parts_eq(a: &Vec<ExecPart>, b: &Vec<ExecPart>) -> (res: bool)
    ensures
        res == (a.deep_view() == b.deep_view()),
{
    if a.len() != b.len() {
        assert(a.deep_view().len() != b.deep_view().len());
        return false;
    }
    let r = parts_starts_with(a, b);
    proof {
        assert(a.deep_view().subrange(0, b@.len() as int) =~= a.deep_view());
    }
    r
}

/// Lexicographic byte order from position `i` on: the first differing
/// byte decides; a proper prefix comes first.
pub open spec fn bytes_lt_from(a: Seq<u8>, b: Seq<u8>, i: nat) -> bool
    decreases a.len() - i,
{
    if i >= a.len() {
        i < b.len()
    } else if i >= b.len() {
        false
    } else if a[i as int] != b[i as int] {
        a[i as int] < b[i as int]
    } else {
        bytes_lt_from(a, b, i + 1)
    }
}

pub open spec fn bytes_lt(a: Seq<u8>, b: Seq<u8>) -> bool {
    bytes_lt_from(a, b, 0)
}

/// Position of a component kind in `Component`'s order.
pub open spec fn part_rank(x: PathPart) -> int {
    match x {
        PathPart::RootDir => 1,
        PathPart::CurDir => 2,
        PathPart::ParentDir => 3,
        PathPart::Normal(_) => 4,
    }
}

/// Order of path components (as `std::path::Component` orders them): by
/// kind, then normal components by their bytes.
pub open spec fn part_lt(x: PathPart, y: PathPart) -> bool {
    if part_rank(x) != part_rank(y) {
        part_rank(x) < part_rank(y)
    } else {
        match (x, y) {
            (PathPart::Normal(p), PathPart::Normal(q)) => bytes_lt(p, q),
            _ => false,
        }
    }
}

/// Lexicographic order of component lists from position `i` on.
pub open spec fn parts_lt_from(a: Seq<PathPart>, b: Seq<PathPart>, i: nat) -> bool
    decreases a.len() - i,
{
    if i >= a.len() {
        i < b.len()
    } else if i >= b.len() {
        false
    } else if a[i as int] != b[i as int] {
        part_lt(a[i as int], b[i as int])
    } else {
        parts_lt_from(a, b, i + 1)
    }
}

/// Path order (as `Path`'s `Ord`): component lists compared
/// lexicographically.
pub open spec fn parts_lt(a: Seq<PathPart>, b: Seq<PathPart>) -> bool {
    parts_lt_from(a, b, 0)
}

proof fn lemma_bytes_irrefl(a: Seq<u8>, i: nat)
    ensures
        !bytes_lt_from(a, a, i),
    decreases a.len() - i,
{
    if i < a.len() {
        lemma_bytes_irrefl(a, i + 1);
    }
}

proof fn lemma_parts_irrefl(a: Seq<PathPart>, i: nat)
    ensures
        !parts_lt_from(a, a, i),
    decreases a.len() - i,
{
    if i < a.len() {
        lemma_parts_irrefl(a, i + 1);
    }
}

proof fn lemma_bytes_lt_laws(a: Seq<u8>, b: Seq<u8>, c: Seq<u8>, i: nat)
    requires
        i <= a.len(),
        i <= b.len(),
    ensures
        !bytes_lt_from(a, a, i),
        bytes_lt_from(a, b, i) ==> !bytes_lt_from(b, a, i),
        bytes_lt_from(a, b, i) && bytes_lt_from(b, c, i) ==> bytes_lt_from(a, c, i),
        bytes_lt_from(a, b, i) || bytes_lt_from(b, a, i) || (a.len() == b.len() && forall|j: int|
            i <= j < a.len() ==> a[j] == b[j]),
    decreases a.len() - i,
{
    lemma_bytes_irrefl(a, i);
    if i < a.len() && i < b.len() {
        lemma_bytes_lt_laws(a, b, c, i + 1);
    }
}

/// Equal byte strings are the only ones that neither precedes.
pub proof fn lemma_bytes_order(a: Seq<u8>, b: Seq<u8>, c: Seq<u8>)
    ensures
        !bytes_lt(a, a),
        bytes_lt(a, b) ==> !bytes_lt(b, a),
        bytes_lt(a, b) && bytes_lt(b, c) ==> bytes_lt(a, c),
        a != b ==> bytes_lt(a, b) || bytes_lt(b, a),
{
    lemma_bytes_lt_laws(a, b, c, 0);
    if !bytes_lt(a, b) && !bytes_lt(b, a) {
        assert(a =~= b);
    }
}

proof fn lemma_part_order(x: PathPart, y: PathPart, z: PathPart)
    ensures
        !part_lt(x, x),
        part_lt(x, y) ==> !part_lt(y, x),
        part_lt(x, y) && part_lt(y, z) ==> part_lt(x, z),
        x != y ==> part_lt(x, y) || part_lt(y, x),
{
    match (x, y, z) {
        (PathPart::Normal(p), PathPart::Normal(q), PathPart::Normal(r)) => {
            lemma_bytes_order(p, q, r);
        },
        (PathPart::Normal(p), PathPart::Normal(q), _) => {
            lemma_bytes_order(p, q, q);
        },
        (PathPart::Normal(p), _, _) => {
            lemma_bytes_order(p, p, p);
        },
        (_, PathPart::Normal(q), _) => {
            lemma_bytes_order(q, q, q);
        },
        _ => {},
    }
}

proof fn lemma_parts_lt_laws(a: Seq<PathPart>, b: Seq<PathPart>, c: Seq<PathPart>, i: nat)
    requires
        i <= a.len(),
        i <= b.len(),
    ensures
        !parts_lt_from(a, a, i),
        parts_lt_from(a, b, i) ==> !parts_lt_from(b, a, i),
        parts_lt_from(a, b, i) && parts_lt_from(b, c, i) ==> parts_lt_from(a, c, i),
        parts_lt_from(a, b, i) || parts_lt_from(b, a, i) || (a.len() == b.len() && forall|j: int|
            i <= j < a.len() ==> a[j] == b[j]),
    decreases a.len() - i,
{
    lemma_parts_irrefl(a, i);
    if i < a.len() && i < b.len() {
        lemma_parts_lt_laws(a, b, c, i + 1);
        if i < b.len() && i < c.len() {
            lemma_part_order(a[i as int], b[i as int], c[i as int]);
        } else if i < b.len() {
            lemma_part_order(a[i as int], b[i as int], b[i as int]);
        }
    }
}

/// Path order is a strict total order: irreflexive, asymmetric,
/// transitive, and any two different component lists are ordered.
pub proof fn lemma_parts_order(a: Seq<PathPart>, b: Seq<PathPart>, c: Seq<PathPart>)
    ensures
        !parts_lt(a, a),
        parts_lt(a, b) ==> !parts_lt(b, a),
        parts_lt(a, b) && parts_lt(b, c) ==> parts_lt(a, c),
        a != b ==> parts_lt(a, b) || parts_lt(b, a),
{
    lemma_parts_lt_laws(a, b, c, 0);
    if !parts_lt(a, b) && !parts_lt(b, a) {
        assert(a =~= b);
    }
}

/// Byte order of two byte strings.
pub fn bytes_less(a: &[u8], b: &[u8]) -> (res: bool)
    ensures
        res == bytes_lt(a@, b@),
{
    let mut i: usize = 0;
    while i < a.len() && i < b.len() && a[i] == b[i]
        invariant
            i <= a@.len(),
            i <= b@.len(),
            bytes_lt(a@, b@) == bytes_lt_from(a@, b@, i as nat),
        decreases a@.len() - i,
    {
        i = i + 1;
    }
    if i < a.len() && i < b.len() {
        a[i] < b[i]
    } else {
        i >= a.len() && i < b.len()
    }
}

fn part_less(x: &ExecPart, y: &ExecPart) -> (res: bool)
    ensures
        res == part_lt(x.deep_view(), y.deep_view()),
{
    let rx: u8 = match x {
        ExecPart::RootDir => 1,
        ExecPart::CurDir => 2,
        ExecPart::ParentDir => 3,
        ExecPart::Normal(_) => 4,
    };
    let ry: u8 = match y {
        ExecPart::RootDir => 1,
        ExecPart::CurDir => 2,
        ExecPart::ParentDir => 3,
        ExecPart::Normal(_) => 4,
    };
    if rx != ry {
        return rx < ry;
    }
    match (x, y) {
        (ExecPart::Normal(p), ExecPart::Normal(q)) => bytes_less(p.as_slice(), q.as_slice()),
        _ => false,
    }
}

/// Path order of two component lists (see [`parts_lt`]).
pub fn parts_less(a: &Vec<ExecPart>, b: &Vec<ExecPart>) -> (res: bool)
    ensures
        res == parts_lt(a.deep_view(), b.deep_view()),
{
    let mut i: usize = 0;
    while i < a.len() && i < b.len() && part_eq(&a[i], &b[i])
        invariant
            i <= a@.len(),
            i <= b@.len(),
            parts_lt(a.deep_view(), b.deep_view()) == parts_lt_from(a.deep_view(), b.deep_view(), i as nat),
        decreases a@.len() - i,
    {
        i = i + 1;
    }
    if i < a.len() && i < b.len() {
        part_less(&a[i], &b[i])
    } else {
        i >= a.len() && i < b.len()
    }
}

} // verus!
