//! Authentication of the account the boot and session policy preselected:
//! the account must exist in the password database with numeric ids.

use vstd::prelude::*;
use crate::path::split_seq;
use crate::session::AuthenticationError;
use crate::text::{chars_of, parse_unsigned, parse_unsigned_chars, split_chars};

verus! {

/// The identity a session runs as.
#[derive(Clone, Debug, PartialEq, Eq)]
pub struct AuthenticatedIdentity {
    pub uid: u32,
    pub gid: u32,
    pub username: String,
}

/// A user name that cannot be looked up: empty, or holding `:` or a line
/// break.
pub open spec fn identity_malformed(u: Seq<char>) -> bool {
    u.len() == 0 || u.contains(':') || u.contains('\n')
}

pub open spec fn strip_cr(l: Seq<char>) -> Seq<char> {
    if l.len() > 0 && l[l.len() - 1] == '\r' {
        l.drop_last()
    } else {
        l
    }
}

/// The lines of a text as `str::lines` gives them: split at `\n`, a `\r`
/// before the `\n` removed, and no empty line after a final `\n`.
pub open spec fn text_lines(t: Seq<char>) -> Seq<Seq<char>> {
    let p = split_seq(t, '\n');
    let n = p.len() as int;
    let body = Seq::new((n - 1) as nat, |i: int| strip_cr(p[i]));
    if p[n - 1].len() == 0 {
        body
    } else {
        body.push(p[n - 1])
    }
}

/// A numeric id field of a password entry.
pub open spec fn id_field(fields: Seq<Seq<char>>, k: int) -> Option<nat> {
    if k < fields.len() {
        parse_unsigned(fields[k], 0xffff_ffff)
    } else {
        None
    }
}

/// The entry of the first line whose name is `u`: its uid and gid fields.
pub open spec fn find_entry(lines: Seq<Seq<char>>, u: Seq<char>, i: int) -> Option<(Option<nat>, Option<nat>)>
    decreases lines.len() - i,
{
    if i < 0 || i >= lines.len() {
        None
    } else {
        let fields = split_seq(lines[i], ':');
        if fields[0] == u {
            Some((id_field(fields, 2), id_field(fields, 3)))
        } else {
            find_entry(lines, u, i + 1)
        }
    }
}

/// What authenticating `u` against the password database text `passwd`
/// gives: the ids of its first entry, or why not.
pub open spec fn auth_ok(u: Seq<char>, passwd: Seq<char>, res: Result<AuthenticatedIdentity, AuthenticationError>) -> bool {
    if identity_malformed(u) {
        res matches Err(AuthenticationError::InvalidIdentity(d)) && d@ == u
    } else {
        match find_entry(text_lines(passwd), u, 0) {
            None => res matches Err(AuthenticationError::UnknownUser(n)) && n@ == u,
            Some((None, _)) => res matches Err(AuthenticationError::InvalidIdentity(d)) && d@ == "invalid uid for "@ + u,
            Some((Some(_), None)) => res matches Err(AuthenticationError::InvalidIdentity(d)) && d@ == "invalid gid for "@ + u,
            Some((Some(uid), Some(gid))) => res matches Ok(id) && id.uid == uid && id.gid == gid && id.username@ == u,
        }
    }
}

fn contains_char(v: &[char], c: char) -> (res: bool)
    ensures
        res == v@.contains(c),
{
    let mut i: usize = 0;
    while i < v.len()
        invariant
            i <= v@.len(),
            forall|j: int| 0 <= j < i ==> v@[j] != c,
        decreases v@.len() - i,
    {
        if v[i] == c {
            assert(v@[i as int] == c);
            return true;
        }
        i = i + 1;
    }
    false
}

fn parse_id(fields: &Vec<Vec<char>>, k: usize) -> (res: Option<u32>)
    ensures
        match id_field(fields.deep_view(), k as int) {
            Some(v) => res == Some(v as u32),
            None => res is None,
        },
{
    if k < fields.len() {
        let f = &fields[k];
        assert(f@ == fields.deep_view()[k as int]);
        assert(f@.subrange(0, f@.len() as int) =~= f@);
        match parse_unsigned_chars(f.as_slice(), 0, f.len(), 0xffff_ffff) {
            Some(v) => Some(v as u32),
            None => None,
        }
    } else {
        None
    }
}

/// The lines of `text` (see [`text_lines`]).
pub fn lines_of(text: &str) -> (res: Vec<Vec<char>>)
    ensures
        res.deep_view() == text_lines(text@),
{
    let chars = chars_of(text);
    let pieces = split_chars(chars.as_slice(), '\n');
    let ghost pv = pieces.deep_view();
    let ghost lines = text_lines(text@);
    let n = pieces.len();
    assert(n >= 1);
    let count = if pieces[n - 1].len() == 0 {
        n - 1
    } else {
        n
    };
    assert(pieces[n - 1]@ == pv[n - 1]);
    assert(lines.len() == count);
    let mut out: Vec<Vec<char>> = Vec::new();
    let mut i: usize = 0;
    while i < count
        invariant
            count == lines.len(),
            pv == pieces.deep_view(),
            pv == split_seq(text@, '\n'),
            n == pv.len(),
            n >= 1,
            lines == text_lines(text@),
            i <= count,
            count <= n,
            count == n - 1 || pv[n - 1].len() > 0,
            out.deep_view() == lines.subrange(0, i as int),
        decreases n - i,
    {
        let piece = &pieces[i];
        assert(piece@ == pv[i as int]);
        let last = i + 1 == n;
        let mut line: Vec<char> = Vec::new();
        let mut k: usize = 0;
        let cut = if !last && piece.len() > 0 && piece[piece.len() - 1] == '\r' {
            piece.len() - 1
        } else {
            piece.len()
        };
        while k < cut
            invariant
                k <= cut <= piece@.len(),
                line@ == piece@.subrange(0, k as int),
            decreases cut - k,
        {
            line.push(piece[k]);
            k = k + 1;
            assert(line@ =~= piece@.subrange(0, k as int));
        }
        assert(line@ == lines[i as int]) by {
            if last {
                assert(lines.len() == n);
                assert(line@ =~= piece@);
            } else {
                assert(line@ =~= strip_cr(piece@));
            }
        }
        let ghost before = out.deep_view();
        assert(line.deep_view() =~= line@);
        out.push(line);
        proof {
            assert(out.deep_view() =~= before.push(lines[i as int]));
            assert(lines.subrange(0, i + 1) =~= lines.subrange(0, i as int).push(lines[i as int]));
        }
        i = i + 1;
    }
    assert(lines.subrange(0, count as int) =~= lines);
    out
}

/// Authenticates `username` against the text of the password database.
pub fn authenticate_in_passwd(username: &str, passwd: &str) -> (res: Result<AuthenticatedIdentity, AuthenticationError>)
    ensures
        auth_ok(username@, passwd@, res),
{
    let u = chars_of(username);
    if u.len() == 0 || contains_char(u.as_slice(), ':') || contains_char(u.as_slice(), '\n') {
        return Err(AuthenticationError::InvalidIdentity(String::from_str(username)));
    }
    let text = chars_of(passwd);
    let pieces = split_chars(text.as_slice(), '\n');
    let ghost pv = pieces.deep_view();
    let ghost lines = text_lines(passwd@);
    let n = pieces.len();
    assert(n >= 1);
    let count = if pieces[n - 1].len() == 0 {
        n - 1
    } else {
        n
    };
    assert(pieces[n - 1]@ == pv[n - 1]);
    assert(lines.len() == count);
    let mut i: usize = 0;
    while i < count
        invariant
            count == lines.len(),
            pv == pieces.deep_view(),
            pv == split_seq(passwd@, '\n'),
            n == pv.len(),
            n >= 1,
            u@ == username@,
            !identity_malformed(username@),
            lines == text_lines(passwd@),
            i <= count,
            count <= n,
            count == n - 1 || pv[n - 1].len() > 0,
            find_entry(lines, username@, 0) == find_entry(lines, username@, i as int),
        decreases n - i,
    {
        let piece = &pieces[i];
        assert(piece@ == pv[i as int]);
        let last = i + 1 == n;
        let mut line: Vec<char> = Vec::new();
        let mut k: usize = 0;
        let cut = if !last && piece.len() > 0 && piece[piece.len() - 1] == '\r' {
            piece.len() - 1
        } else {
            piece.len()
        };
        while k < cut
            invariant
                k <= cut <= piece@.len(),
                line@ == piece@.subrange(0, k as int),
            decreases cut - k,
        {
            line.push(piece[k]);
            k = k + 1;
            assert(line@ =~= piece@.subrange(0, k as int));
        }
        assert(line@ == lines[i as int]) by {
            if last {
                assert(lines.len() == n);
                assert(line@ =~= piece@);
            } else {
                assert(line@ =~= strip_cr(piece@));
            }
        }
        let fields = split_chars(line.as_slice(), ':');
        let ghost fv = fields.deep_view();
        assert(fv == split_seq(lines[i as int], ':'));
        assert(fields[0]@ == fv[0]);
        if crate::text::chars_eq(fields[0].as_slice(), u.as_slice()) {
            let uid = match parse_id(&fields, 2) {
                Some(v) => v,
                None => {
                    let mut d = String::from_str("invalid uid for ");
                    d.append(username);
                    return Err(AuthenticationError::InvalidIdentity(d));
                },
            };
            let gid = match parse_id(&fields, 3) {
                Some(v) => v,
                None => {
                    let mut d = String::from_str("invalid gid for ");
                    d.append(username);
                    return Err(AuthenticationError::InvalidIdentity(d));
                },
            };
            return Ok(AuthenticatedIdentity { uid, gid, username: String::from_str(username) });
        }
        i = i + 1;
    }
    Err(AuthenticationError::UnknownUser(String::from_str(username)))
}

} // verus!
