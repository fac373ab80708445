//! The small `key = value` configuration syntax the boot loader reads:
//! `[section]` headers, `#` comments, and string, string-array, boolean and
//! integer values.
//!
//! Each line is trimmed; empty lines and comments are skipped; a line that
//! starts with `[` and ends with `]` opens a section; any other line with a
//! `=` is an entry of the current section, its key trimmed and its value
//! kept as written. Lines without `=` are ignored.

use vstd::prelude::*;
use crate::device::{split_once, split_once_chars};
use crate::path::split_seq;
use crate::text::{chars_of, split_chars, string_from_chars, trim, trim_bounds};

verus! {

/// One `key = value` entry and the section it stands in.
pub struct ConfigEntry {
    pub section: Vec<char>,
    pub key: Vec<char>,
    pub value: Vec<char>,
}

pub open spec fn entry_view(e: ConfigEntry) -> (Seq<char>, Seq<char>, Seq<char>) {
    (e.section@, e.key@, e.value@)
}

pub open spec fn entries_view(v: Seq<ConfigEntry>) -> Seq<(Seq<char>, Seq<char>, Seq<char>)> {
    Seq::new(v.len(), |i: int| entry_view(v[i]))
}

/// The section a header line opens, if it is one.
pub open spec fn line_section(line: Seq<char>) -> Option<Seq<char>> {
    if line.len() >= 2 && line[0] == '[' && line[line.len() - 1] == ']' {
        Some(line.subrange(1, line.len() - 1))
    } else {
        None
    }
}

pub open spec fn line_skipped(line: Seq<char>) -> bool {
    line.len() == 0 || line[0] == '#'
}

/// The entries of the (already trimmed) lines from `i` on, starting in
/// `section`.
pub open spec fn scan_lines(lines: Seq<Seq<char>>, i: int, section: Seq<char>) -> Seq<
    (Seq<char>, Seq<char>, Seq<char>),
>
    decreases lines.len() - i,
{
    if i < 0 || i >= lines.len() {
        Seq::empty()
    } else {
        let line = lines[i];
        if line_skipped(line) {
            scan_lines(lines, i + 1, section)
        } else if line_section(line) is Some {
            scan_lines(lines, i + 1, line_section(line)->0)
        } else {
            match split_once(line, '=') {
                None => scan_lines(lines, i + 1, section),
                Some((k, v)) => seq![(section, trim(k), v)] + scan_lines(lines, i + 1, section),
            }
        }
    }
}

/// The trimmed lines of a text.
pub open spec fn trimmed_lines(text: Seq<char>) -> Seq<Seq<char>> {
    split_seq(text, '\n').map_values(|l: Seq<char>| trim(l))
}

/// All entries of a configuration text, in order.
pub open spec fn config_entries(text: Seq<char>) -> Seq<(Seq<char>, Seq<char>, Seq<char>)> {
    scan_lines(trimmed_lines(text), 0, Seq::empty())
}

fn trimmed(chars: &[char]) -> (res: Vec<char>)
    ensures
        res@ == trim(chars@),
{
    let (a, b) = trim_bounds(chars);
    let mut out: Vec<char> = Vec::new();
    let mut i = a;
    while i < b
        invariant
            a <= i <= b <= chars@.len(),
            out@ == chars@.subrange(a as int, i as int),
        decreases b - i,
    {
        out.push(chars[i]);
        i = i + 1;
        assert(out@ =~= chars@.subrange(a as int, i as int));
    }
    out
}

fn sub_chars(chars: &[char], start: usize, end: usize) -> (res: Vec<char>)
    requires
        start <= end <= chars@.len(),
    ensures
        res@ == chars@.subrange(start as int, end as int),
{
    let mut out: Vec<char> = Vec::new();
    let mut i = start;
    while i < end
        invariant
            start <= i <= end <= chars@.len(),
            out@ == chars@.subrange(start as int, i as int),
        decreases end - i,
    {
        out.push(chars[i]);
        i = i + 1;
        assert(out@ =~= chars@.subrange(start as int, i as int));
    }
    out
}

fn copy_chars(v: &Vec<char>) -> (res: Vec<char>)
    ensures
        res@ == v@,
{
    sub_chars(v.as_slice(), 0, v.len())
}

/// Splits a configuration text into its entries.
pub fn scan_config(text: &[char]) -> (res: Vec<ConfigEntry>)
    ensures
        entries_view(res@) == config_entries(text@),
{
    let pieces = split_chars(text, '\n');
    let ghost lines = trimmed_lines(text@);
    assert(lines.len() == pieces@.len());
    let mut out: Vec<ConfigEntry> = Vec::new();
    let mut section: Vec<char> = Vec::new();
    let mut i: usize = 0;
    while i < pieces.len()
        invariant
            pieces.deep_view() == split_seq(text@, '\n'),
            lines == trimmed_lines(text@),
            lines.len() == pieces@.len(),
            i <= pieces@.len(),
            entries_view(out@) + scan_lines(lines, i as int, section@) == config_entries(text@),
        decreases pieces@.len() - i,
    {
        let line = trimmed(pieces[i].as_slice());
        assert(pieces[i as int]@ == pieces.deep_view()[i as int]);
        assert(line@ == lines[i as int]);
        let n = line.len();
        if n == 0 || line[0] == '#' {
        } else if n >= 2 && line[0] == '[' && line[n - 1] == ']' {
            section = sub_chars(line.as_slice(), 1, n - 1);
        } else {
            match split_once_chars(line.as_slice(), '=') {
                None => {},
                Some((k, v)) => {
                    let kc = chars_of(k.as_str());
                    let key = trimmed(kc.as_slice());
                    let value = chars_of(v.as_str());
                    let ghost before = entries_view(out@);
                    out.push(ConfigEntry { section: copy_chars(&section), key, value });
                    assert(entries_view(out@) =~= before + seq![(section@, trim(k@), v@)]);
                },
            }
        }
        i = i + 1;
    }
    assert(entries_view(out@) =~= entries_view(out@) + scan_lines(lines, i as int, section@));
    out
}

/// A double-quoted string value: the text between the quotes.
pub open spec fn parse_string(value: Seq<char>) -> Option<Seq<char>> {
    let t = trim(value);
    if t.len() >= 2 && t[0] == '"' && t[t.len() - 1] == '"' {
        Some(t.subrange(1, t.len() - 1))
    } else {
        None
    }
}

/// Reads a double-quoted string value.
pub fn parse_string_value(value: &[char]) -> (res: Option<Vec<char>>)
    ensures
        match parse_string(value@) {
            Some(s) => res matches Some(v) && v@ == s,
            None => res is None,
        },
{
    let t = trimmed(value);
    let n = t.len();
    if n >= 2 && t[0] == '"' && t[n - 1] == '"' {
        Some(sub_chars(t.as_slice(), 1, n - 1))
    } else {
        None
    }
}

/// The quoted strings of an array value `[ "a", "b" ]`; pieces that are
/// not quoted strings are dropped, and a value that is not an array gives
/// nothing.
pub open spec fn parse_string_array(value: Seq<char>) -> Seq<Seq<char>> {
    let t = trim(value);
    if t.len() >= 2 && t[0] == '[' && t[t.len() - 1] == ']' {
        strings_of(split_seq(t.subrange(1, t.len() - 1), ','))
    } else {
        Seq::empty()
    }
}

/// The pieces that are quoted strings, unquoted, in order.
pub open spec fn strings_of(pieces: Seq<Seq<char>>) -> Seq<Seq<char>>
    decreases pieces.len(),
{
    if pieces.len() == 0 {
        Seq::empty()
    } else {
        let rest = strings_of(pieces.drop_last());
        match parse_string(pieces.last()) {
            Some(s) => rest.push(s),
            None => rest,
        }
    }
}

pub open spec fn chars_view(v: Seq<Vec<char>>) -> Seq<Seq<char>> {
    Seq::new(v.len(), |i: int| v[i]@)
}

/// Reads a string-array value.
pub fn parse_string_array_value(value: &[char]) -> (res: Vec<Vec<char>>)
    ensures
        chars_view(res@) == parse_string_array(value@),
{
    let mut out: Vec<Vec<char>> = Vec::new();
    let t = trimmed(value);
    let n = t.len();
    if !(n >= 2 && t[0] == '[' && t[n - 1] == ']') {
        assert(chars_view(out@) =~= Seq::<Seq<char>>::empty());
        return out;
    }
    let inner = sub_chars(t.as_slice(), 1, n - 1);
    let pieces = split_chars(inner.as_slice(), ',');
    let ghost pv = pieces.deep_view();
    let mut i: usize = 0;
    while i < pieces.len()
        invariant
            pv == pieces.deep_view(),
            i <= pv.len(),
            chars_view(out@) == strings_of(pv.subrange(0, i as int)),
        decreases pv.len() - i,
    {
        assert(pv.subrange(0, i as int + 1).drop_last() =~= pv.subrange(0, i as int));
        assert(pieces[i as int]@ == pv[i as int]);
        match parse_string_value(pieces[i].as_slice()) {
            Some(s) => {
                let ghost before = chars_view(out@);
                out.push(s);
                assert(chars_view(out@) =~= before.push(s@));
            },
            None => {},
        }
        i = i + 1;
    }
    assert(pv.subrange(0, pv.len() as int) =~= pv);
    out
}

/// `true` or `false`, after trimming.
pub open spec fn parse_bool(value: Seq<char>) -> Option<bool> {
    let t = trim(value);
    if t == "true"@ {
        Some(true)
    } else if t == "false"@ {
        Some(false)
    } else {
        None
    }
}

/// Character-sequence equality with a literal.
pub fn chars_are(v: &[char], lit: &str) -> (res: bool)
    ensures
        res == (v@ == lit@),
{
    let l = chars_of(lit);
    crate::text::chars_eq(v, l.as_slice())
}

/// Reads a boolean value.
pub fn parse_bool_value(value: &[char]) -> (res: Option<bool>)
    ensures
        res == parse_bool(value@),
{
    let t = trimmed(value);
    if chars_are(t.as_slice(), "true") {
        Some(true)
    } else if chars_are(t.as_slice(), "false") {
        Some(false)
    } else {
        None
    }
}

/// A string holding `chars`.
pub fn string_of(chars: &Vec<char>) -> (res: String)
    ensures
        res@ == chars@,
{
    string_from_chars(chars.as_slice(), 0, chars.len())
}

} // verus!
