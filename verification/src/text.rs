//! Text helpers shared by the parsers: string equality, conversion between
//! `str` and character vectors, and UTF-8 decoding of byte input.

use vstd::prelude::*;
use crate::path::{split_acc, split_seq, lemma_split_step};

verus! {

/// `str` equality (`<str as PartialEq>::eq`): true exactly when both strings
/// hold the same characters.
#[verifier::external_body]
pub fn str_eq(a: &str, b: &str) -> (res: bool)
    ensures
        res == (a@ == b@),
{
    a == b
}

/// `String::push`: appends one character.
#[verifier::external_body]
pub fn string_push(s: &mut String, c: char)
    ensures
        final(s)@ == old(s)@.push(c),
{
    s.push(c)
}

/// `str::from_utf8`: succeeds exactly on valid UTF-8 and then yields the
/// decoded characters.
#[verifier::external_body]
pub fn utf8_to_string(bytes: &[u8]) -> (res: Option<String>)
    ensures
        res is Some <==> vstd::utf8::valid_utf8(bytes@),
        res matches Some(s) ==> s@ == vstd::utf8::decode_utf8(bytes@),
{
    match std::str::from_utf8(bytes) {
        Ok(s) => Some(s.to_owned()),
        Err(_) => None,
    }
}

/// `String::from_utf8_lossy`: valid UTF-8 is decoded as is; invalid
/// sequences become U+FFFD (that replacement is left unsaid).
#[verifier::external_body]
pub fn utf8_lossy(bytes: &[u8]) -> (res: String)
    ensures
        vstd::utf8::valid_utf8(bytes@) ==> res@ == vstd::utf8::decode_utf8(bytes@),
{
    String::from_utf8_lossy(bytes).into_owned()
}

/// A new `String` holding `prefix` followed by `tail`.
pub fn prefixed(prefix: &str, tail: &str) -> (res: String)
    ensures
        res@ == prefix@ + tail@,
{
    let mut s = String::from_str(prefix);
    s.append(tail);
    s
}

/// `text` is `prefix` followed by the lossy decoding of `bytes`: the prefix
/// always stands first, and where `bytes` is valid UTF-8 the rest is exactly
/// its decoding.
pub open spec fn prefixed_lossy(text: Seq<char>, prefix: Seq<char>, bytes: Seq<u8>) -> bool {
    &&& prefix.len() <= text.len()
    &&& text.subrange(0, prefix.len() as int) == prefix
    &&& vstd::utf8::valid_utf8(bytes) ==> text == prefix + vstd::utf8::decode_utf8(bytes)
}

/// `prefix` followed by `bytes` decoded lossily.
pub fn prefixed_lossy_string(prefix: &str, bytes: &[u8]) -> (res: String)
    ensures
        prefixed_lossy(res@, prefix@, bytes@),
{
    let mut s = String::from_str(prefix);
    let text = utf8_lossy(bytes);
    s.append(text.as_str());
    assert(s@.subrange(0, prefix@.len() as int) =~= prefix@);
    s
}

/// The characters of `s`, in order.
pub fn chars_of(s: &str) -> (res: Vec<char>)
    ensures
        res@ == s@,
{
    let mut out: Vec<char> = Vec::new();
    for c in it: s.chars()
        invariant
            out@ == it.seq().take(it.index() as int),
            it.seq() == s@,
    {
        out.push(c);
    }
    out
}

/// A `String` holding the characters `chars[start..end]`.
pub fn string_from_chars(chars: &[char], start: usize, end: usize) -> (res: String)
    requires
        start <= end <= chars@.len(),
    ensures
        res@ == chars@.subrange(start as int, end as int),
{
    let mut out = String::new();
    let mut i = start;
    while i < end
        invariant
            start <= i <= end <= chars@.len(),
            out@ == chars@.subrange(start as int, i as int),
        decreases end - i,
    {
        string_push(&mut out, chars[i]);
        i = i + 1;
    }
    out
}

} // verus!

verus! {

/// Unicode `White_Space` (the set `char::is_whitespace` tests).
pub open spec fn is_ws(c: char) -> bool {
    let v = c as u32;
    (0x09 <= v <= 0x0d) || v == 0x20 || v == 0x85 || v == 0xa0 || v == 0x1680 || (0x2000 <= v
        <= 0x200a) || v == 0x2028 || v == 0x2029 || v == 0x202f || v == 0x205f || v == 0x3000
}

/// `char::is_whitespace`.
pub fn char_is_ws(c: char) -> (res: bool)
    ensures
        res == is_ws(c),
{
    let v = c as u32;
    (0x09 <= v && v <= 0x0d) || v == 0x20 || v == 0x85 || v == 0xa0 || v == 0x1680 || (0x2000
        <= v && v <= 0x200a) || v == 0x2028 || v == 0x2029 || v == 0x202f || v == 0x205f || v
        == 0x3000
}

/// Number of leading whitespace characters.
pub open spec fn lead_ws(s: Seq<char>) -> nat
    decreases s.len(),
{
    if s.len() == 0 || !is_ws(s[0]) {
        0
    } else {
        1 + lead_ws(s.drop_first())
    }
}

/// Number of trailing whitespace characters.
pub open spec fn trail_ws(s: Seq<char>) -> nat
    decreases s.len(),
{
    if s.len() == 0 || !is_ws(s.last()) {
        0
    } else {
        1 + trail_ws(s.drop_last())
    }
}

/// `str::trim`: the text without leading and trailing whitespace.
pub open spec fn trim(s: Seq<char>) -> Seq<char> {
    if lead_ws(s) >= s.len() {
        Seq::empty()
    } else {
        s.subrange(lead_ws(s) as int, s.len() - trail_ws(s))
    }
}

/// True when every character is whitespace (so `trim` leaves nothing).
pub open spec fn all_ws(s: Seq<char>) -> bool {
    forall|i: int| 0 <= i < s.len() ==> is_ws(#[trigger] s[i])
}

proof fn lemma_lead_ws(s: Seq<char>, i: nat)
    requires
        i <= s.len(),
        forall|j: int| 0 <= j < i ==> is_ws(#[trigger] s[j]),
    ensures
        lead_ws(s) >= i,
        i < s.len() && !is_ws(s[i as int]) ==> lead_ws(s) == i,
    decreases i,
{
    if i > 0 {
        assert forall|j: int| 0 <= j < i - 1 implies is_ws(#[trigger] s.drop_first()[j]) by {
            assert(s.drop_first()[j] == s[j + 1]);
        }
        lemma_lead_ws(s.drop_first(), (i - 1) as nat);
    } else {
    }
}

proof fn lemma_trail_ws(s: Seq<char>, i: nat)
    requires
        i <= s.len(),
        forall|j: int| s.len() - i <= j < s.len() ==> is_ws(#[trigger] s[j]),
    ensures
        trail_ws(s) >= i,
        i < s.len() && !is_ws(s[s.len() - 1 - i]) ==> trail_ws(s) == i,
    decreases i,
{
    if i > 0 {
        assert forall|j: int| s.drop_last().len() - (i - 1) <= j < s.drop_last().len() implies is_ws(
            #[trigger] s.drop_last()[j],
        ) by {
            assert(s.drop_last()[j] == s[j]);
        }
        lemma_trail_ws(s.drop_last(), (i - 1) as nat);
    }
}

proof fn lemma_lead_ws_bound(s: Seq<char>)
    ensures
        lead_ws(s) <= s.len(),
        lead_ws(s) < s.len() ==> !is_ws(s[lead_ws(s) as int]),
        forall|j: int| 0 <= j < lead_ws(s) ==> is_ws(#[trigger] s[j]),
    decreases s.len(),
{
    if s.len() > 0 && is_ws(s[0]) {
        lemma_lead_ws_bound(s.drop_first());
        assert forall|j: int| 0 <= j < lead_ws(s) implies is_ws(#[trigger] s[j]) by {
            if j > 0 {
                assert(s[j] == s.drop_first()[j - 1]);
            }
        }
    }
}

/// Bounds of the trimmed part of `chars`: `chars[start..end]` is `trim`.
pub fn trim_bounds(chars: &[char]) -> (res: (usize, usize))
    ensures
        res.0 <= res.1 <= chars@.len(),
        chars@.subrange(res.0 as int, res.1 as int) == trim(chars@),
        (res.0 == res.1) == all_ws(chars@),
{
    let n = chars.len();
    let mut a: usize = 0;
    while a < n && char_is_ws(chars[a])
        invariant
            a <= n == chars@.len(),
            forall|j: int| 0 <= j < a ==> is_ws(#[trigger] chars@[j]),
        decreases n - a,
    {
        a = a + 1;
    }
    proof {
        lemma_lead_ws(chars@, a as nat);
        lemma_lead_ws_bound(chars@);
    }
    if a == n {
        proof {
            assert(chars@.subrange(a as int, a as int) =~= Seq::<char>::empty());
        }
        return (a, a);
    }
    let mut b: usize = n;
    while b > a && char_is_ws(chars[b - 1])
        invariant
            a < n == chars@.len(),
            a <= b <= n,
            !is_ws(chars@[a as int]),
            forall|j: int| b <= j < n ==> is_ws(#[trigger] chars@[j]),
        decreases b,
    {
        b = b - 1;
    }
    proof {
        lemma_trail_ws(chars@, (n - b) as nat);
        assert(b > a);
        assert(!is_ws(chars@[n - 1 - (n - b)]));
        assert(!all_ws(chars@));
    }
    (a, b)
}

/// The value of a string of ASCII decimal digits.
pub open spec fn decimal_value(s: Seq<char>) -> nat
    decreases s.len(),
{
    if s.len() == 0 {
        0
    } else {
        10 * decimal_value(s.drop_last()) + ((s.last() as u32) - 48) as nat
    }
}

pub open spec fn is_digit(c: char) -> bool {
    '0' <= c <= '9'
}

pub open spec fn all_digits(s: Seq<char>) -> bool {
    forall|i: int| 0 <= i < s.len() ==> is_digit(#[trigger] s[i])
}

/// Unsigned integer parsing as `str::parse` does it: an optional single
/// `+`, then one or more ASCII digits, with a value not above `max`.
pub open spec fn parse_unsigned(s: Seq<char>, max: nat) -> Option<nat> {
    let digits = if s.len() > 0 && s[0] == '+' {
        s.drop_first()
    } else {
        s
    };
    if digits.len() == 0 || !all_digits(digits) || decimal_value(digits) > max {
        None
    } else {
        Some(decimal_value(digits))
    }
}

proof fn lemma_decimal_push(s: Seq<char>, c: char)
    ensures
        decimal_value(s.push(c)) == 10 * decimal_value(s) + ((c as u32) - 48) as nat,
{
    assert(s.push(c).drop_last() =~= s);
}

proof fn lemma_decimal_mono(s: Seq<char>, i: nat)
    requires
        i <= s.len(),
        all_digits(s),
    ensures
        decimal_value(s.subrange(0, i as int)) <= decimal_value(s),
    decreases s.len() - i,
{
    if i < s.len() {
        lemma_decimal_mono(s, i + 1);
        let p = s.subrange(0, i as int);
        assert(s.subrange(0, (i + 1) as int) =~= p.push(s[i as int]));
        lemma_decimal_push(p, s[i as int]);
    } else {
        assert(s.subrange(0, i as int) =~= s);
    }
}

/// Parses `chars[start..end]` as an unsigned integer no larger than `max`.
pub fn parse_unsigned_chars(chars: &[char], start: usize, end: usize, max: u64) -> (res: Option<
    u64,
>)
    requires
        start <= end <= chars@.len(),
    ensures
        match parse_unsigned(chars@.subrange(start as int, end as int), max as nat) {
            Some(v) => res == Some(v as u64),
            None => res is None,
        },
{
    let ghost s = chars@.subrange(start as int, end as int);
    let mut i = start;
    if i < end && chars[i] == '+' {
        i = i + 1;
    }
    let ghost digits = chars@.subrange(i as int, end as int);
    proof {
        if s.len() > 0 && s[0] == '+' {
            assert(digits =~= s.drop_first());
        } else {
            assert(digits =~= s);
        }
    }
    if i == end {
        return None;
    }
    let first = i;
    let mut value: u64 = 0;
    while i < end
        invariant
            start <= first <= i <= end <= chars@.len(),
            first < end,
            digits == chars@.subrange(first as int, end as int),
            s == chars@.subrange(start as int, end as int),
            digits == (if s.len() > 0 && s[0] == '+' { s.drop_first() } else { s }),
            all_digits(chars@.subrange(first as int, i as int)),
            value as nat == decimal_value(chars@.subrange(first as int, i as int)),
            value <= max,
        decreases end - i,
    {
        let c = chars[i];
        if !('0' <= c && c <= '9') {
            proof {
                assert(digits[i - first] == c);
                assert(!is_digit(digits[i - first]));
                assert(!all_digits(digits));
            }
            return None;
        }
        let d = (c as u32 - 48) as u64;
        let ghost pre = chars@.subrange(first as int, i as int);
        proof {
            assert(chars@.subrange(first as int, i + 1) =~= pre.push(c));
            lemma_decimal_push(pre, c);
        }
        if d > max || value > (max - d) / 10 {
            proof {
                assert(value * 10 + d > max) by (nonlinear_arith)
                    requires
                        d > max || value > (max - d) / 10,
                        d <= 9,
                ;
                assert forall|j: int| 0 <= j < i + 1 - first implies is_digit(
                    #[trigger] chars@.subrange(first as int, i + 1)[j],
                ) by {
                    if j < i - first {
                        assert(chars@.subrange(first as int, i + 1)[j] == pre[j]);
                    }
                }
                if all_digits(digits) {
                    lemma_decimal_mono(digits, (i + 1 - first) as nat);
                    assert(digits.subrange(0, i + 1 - first) =~= chars@.subrange(
                        first as int,
                        i + 1,
                    ));
                }
            }
            return None;
        }
        proof {
            assert(value * 10 + d <= max) by (nonlinear_arith)
                requires
                    value <= (max - d) / 10,
                    d <= 9,
                    d <= max,
            ;
        }
        value = value * 10 + d;
        proof {
            assert forall|j: int| 0 <= j < i + 1 - first implies is_digit(
                #[trigger] chars@.subrange(first as int, i + 1)[j],
            ) by {
                if j < i - first {
                    assert(chars@.subrange(first as int, i + 1)[j] == pre[j]);
                }
            }
        }
        i = i + 1;
    }
    Some(value)
}


/// The pieces of `s` between occurrences of `sep` (as `str::split`).
pub fn split_chars(s: &[char], sep: char) -> (res: Vec<Vec<char>>)
    ensures
        res.deep_view() == split_seq(s@, sep),
{
    let mut done: Vec<Vec<char>> = Vec::new();
    let mut cur: Vec<char> = Vec::new();
    let mut i: usize = 0;
    while i < s.len()
        invariant
            i <= s@.len(),
            done.deep_view() == split_acc(s@, sep, i as nat).0,
            cur@ == split_acc(s@, sep, i as nat).1,
        decreases s@.len() - i,
    {
        proof {
            lemma_split_step(s@, sep, i as nat);
        }
        if s[i] == sep {
            let ghost before = done.deep_view();
            let piece = cur;
            assert(piece.deep_view() =~= piece@);
            done.push(piece);
            cur = Vec::new();
            proof {
                assert(done.deep_view() =~= before.push(split_acc(s@, sep, i as nat).1));
            }
        } else {
            cur.push(s[i]);
        }
        i = i + 1;
    }
    let ghost before = done.deep_view();
    assert(cur.deep_view() =~= cur@);
    done.push(cur);
    proof {
        assert(done.deep_view() =~= before.push(split_acc(s@, sep, s@.len()).1));
    }
    done
}

/// Character-sequence equality.
pub fn chars_eq(a: &[char], b: &[char]) -> (res: bool)
    ensures
        res == (a@ == b@),
{
    if a.len() != b.len() {
        return false;
    }
    let mut i: usize = 0;
    while i < a.len()
        invariant
            a@.len() == b@.len(),
            i <= a@.len(),
            forall|j: int| 0 <= j < i ==> a@[j] == b@[j],
        decreases a@.len() - i,
    {
        if a[i] != b[i] {
            return false;
        }
        i = i + 1;
    }
    assert(a@ =~= b@);
    true
}

/// Whether `s[start..]` begins with `prefix`.
pub fn has_prefix_at(s: &[char], start: usize, prefix: &[char]) -> (res: bool)
    requires
        start <= s@.len(),
    ensures
        res == (start + prefix@.len() <= s@.len() && s@.subrange(start as int, start + prefix@.len())
            == prefix@),
{
    if prefix.len() > s.len() - start {
        return false;
    }
    let n = s.len();
    let mut i: usize = 0;
    while i < prefix.len()
        invariant
            n == s@.len(),
            start + prefix@.len() <= s@.len(),
            i <= prefix@.len(),
            forall|j: int| 0 <= j < i ==> s@[start + j] == prefix@[j],
        decreases prefix@.len() - i,
    {
        if s[start + i] != prefix[i] {
            assert(s@.subrange(start as int, start + prefix@.len())[i as int] != prefix@[i as int]);
            return false;
        }
        i = i + 1;
    }
    assert(s@.subrange(start as int, start + prefix@.len()) =~= prefix@);
    true
}

/// One digit (`0`-`9`, then `a`-`f`).
pub open spec fn digit_char(d: nat) -> char {
    if d == 0 {
        '0'
    } else if d == 1 {
        '1'
    } else if d == 2 {
        '2'
    } else if d == 3 {
        '3'
    } else if d == 4 {
        '4'
    } else if d == 5 {
        '5'
    } else if d == 6 {
        '6'
    } else if d == 7 {
        '7'
    } else if d == 8 {
        '8'
    } else if d == 9 {
        '9'
    } else if d == 10 {
        'a'
    } else if d == 11 {
        'b'
    } else if d == 12 {
        'c'
    } else if d == 13 {
        'd'
    } else if d == 14 {
        'e'
    } else {
        'f'
    }
}

/// The decimal digits of `n`, most significant first.
pub open spec fn decimal(n: nat) -> Seq<char>
    decreases n,
{
    if n < 10 {
        seq![digit_char(n)]
    } else {
        decimal(n / 10).push(digit_char(n % 10))
    }
}

/// The lowercase hexadecimal digits of `n`, most significant first.
pub open spec fn hexadecimal(n: nat) -> Seq<char>
    decreases n,
{
    if n < 16 {
        seq![digit_char(n)]
    } else {
        hexadecimal(n / 16).push(digit_char(n % 16))
    }
}

/// `v` in decimal, with a leading `-` when negative.
pub open spec fn signed_decimal(v: int) -> Seq<char> {
    if v < 0 {
        seq!['-'] + decimal((-v) as nat)
    } else {
        decimal(v as nat)
    }
}

fn digit_of(d: u64) -> (res: char)
    requires
        d < 16,
    ensures
        res == digit_char(d as nat),
{
    match d {
        0 => '0',
        1 => '1',
        2 => '2',
        3 => '3',
        4 => '4',
        5 => '5',
        6 => '6',
        7 => '7',
        8 => '8',
        9 => '9',
        10 => 'a',
        11 => 'b',
        12 => 'c',
        13 => 'd',
        14 => 'e',
        _ => 'f',
    }
}

/// Appends `n` in decimal.
pub fn push_decimal(out: &mut String, n: u64)
    ensures
        final(out)@ == old(out)@ + decimal(n as nat),
    decreases n,
{
    if n >= 10 {
        push_decimal(out, n / 10);
    }
    let ghost mid = out@;
    string_push(out, digit_of(n % 10));
    proof {
        if n >= 10 {
            assert(out@ =~= old(out)@ + decimal(n as nat));
        } else {
            assert(out@ =~= old(out)@ + decimal(n as nat));
        }
    }
}

/// Appends an exit code in decimal.
pub fn push_signed_decimal(out: &mut String, v: i32)
    ensures
        final(out)@ == old(out)@ + signed_decimal(v as int),
{
    if v < 0 {
        string_push(out, '-');
        let ghost mid = out@;
        let magnitude = (0 - (v as i64)) as u64;
        push_decimal(out, magnitude);
        assert(out@ =~= old(out)@ + signed_decimal(v as int));
    } else {
        push_decimal(out, v as u64);
    }
}

/// Appends `n` in lowercase hexadecimal.
pub fn push_hex(out: &mut String, n: u64)
    ensures
        final(out)@ == old(out)@ + hexadecimal(n as nat),
    decreases n,
{
    if n >= 16 {
        push_hex(out, n / 16);
    }
    string_push(out, digit_of(n % 16));
    proof {
        assert(out@ =~= old(out)@ + hexadecimal(n as nat));
    }
}

} // verus!
