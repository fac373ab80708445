//! Little-endian integer fields inside byte buffers.

use vstd::prelude::*;

verus! {

/// `256^n`.
pub open spec fn pow256(n: nat) -> nat
    decreases n,
{
    if n == 0 {
        1
    } else {
        256 * pow256((n - 1) as nat)
    }
}

/// The unsigned integer whose little-endian encoding is `s`.
pub open spec fn le_value(s: Seq<u8>) -> nat
    decreases s.len(),
{
    if s.len() == 0 {
        0
    } else {
        s[0] as nat + 256 * le_value(s.drop_first())
    }
}

/// The little-endian field of `n` bytes at `off`.
pub open spec fn le_field(s: Seq<u8>, off: int, n: int) -> nat {
    le_value(s.subrange(off, off + n))
}

/// The `n`-byte little-endian encoding of `v` (truncated to `n` bytes).
pub open spec fn le_encode(v: nat, n: nat) -> Seq<u8>
    decreases n,
{
    if n == 0 {
        Seq::empty()
    } else {
        seq![(v % 256) as u8] + le_encode(v / 256, (n - 1) as nat)
    }
}

/// The encoding always has exactly `n` bytes.
pub proof fn lemma_le_encode_len(v: nat, n: nat)
    ensures
        le_encode(v, n).len() == n,
    decreases n,
{
    if n > 0 {
        lemma_le_encode_len(v / 256, (n - 1) as nat);
    }
}

/// A field whose bytes are the encoding of `v` reads back as `v`.
pub proof fn lemma_le_field_of(b: Seq<u8>, off: int, v: nat, n: nat)
    requires
        0 <= off,
        off + n <= b.len(),
        b.subrange(off, off + n) == le_encode(v, n),
        v < pow256(n),
    ensures
        le_field(b, off, n as int) == v,
{
    lemma_le_encode_decode(v, n);
}

pub proof fn lemma_pow256_values()
    ensures
        pow256(1) == 256,
        pow256(2) == 0x1_0000,
        pow256(4) == 0x1_0000_0000,
        pow256(8) == 0x1_0000_0000_0000_0000,
{
    reveal_with_fuel(pow256, 9);
}

pub proof fn lemma_pow256_pos(n: nat)
    ensures
        pow256(n) >= 1,
    decreases n,
{
    if n > 0 {
        lemma_pow256_pos((n - 1) as nat);
    }
}

/// A little-endian value of `n` bytes is below `256^n`.
pub proof fn lemma_le_value_bound(s: Seq<u8>)
    ensures
        le_value(s) < pow256(s.len()),
    decreases s.len(),
{
    if s.len() > 0 {
        lemma_le_value_bound(s.drop_first());
        let r = le_value(s.drop_first());
        let p = pow256((s.len() - 1) as nat);
        assert(s[0] as nat + 256 * r < 256 * p) by (nonlinear_arith)
            requires
                r < p,
                s[0] < 256,
        ;
    }
}

/// Encoding then decoding gives the value back, for values that fit.
pub proof fn lemma_le_encode_decode(v: nat, n: nat)
    requires
        v < pow256(n),
    ensures
        le_encode(v, n).len() == n,
        le_value(le_encode(v, n)) == v,
    decreases n,
{
    if n > 0 {
        let p = pow256((n - 1) as nat);
        assert(v / 256 < p) by (nonlinear_arith)
            requires
                v < 256 * p,
        ;
        lemma_le_encode_decode(v / 256, (n - 1) as nat);
        let e = le_encode(v, n);
        assert(e.drop_first() =~= le_encode(v / 256, (n - 1) as nat));
        assert((v % 256) as u8 as nat == v % 256);
        assert(v % 256 + 256 * (v / 256) == v) by (nonlinear_arith);
    }
}

/// Reads the `n`-byte little-endian field at `off`.
pub fn read_le(bytes: &[u8], off: usize, n: usize) -> (res: u64)
    requires
        n <= 8,
        off + n <= bytes@.len(),
    ensures
        res as nat == le_field(bytes@, off as int, n as int),
{
    proof {
        lemma_pow256_values();
    }
    let len = bytes.len();
    let mut acc: u64 = 0;
    let mut i: usize = n;
    proof {
        assert(bytes@.subrange(off + n, off + n) =~= Seq::<u8>::empty());
    }
    while i > 0
        invariant
            n <= 8,
            off + n <= bytes@.len(),
            len == bytes@.len(),
            i <= n,
            acc as nat == le_value(bytes@.subrange(off + i, off + n)),
            (acc as nat) < pow256((n - i) as nat),
            pow256(8) == 0x1_0000_0000_0000_0000,
        decreases i,
    {
        let b = bytes[off + (i - 1)];
        let ghost sub = bytes@.subrange(off + i - 1, off + n);
        proof {
            assert(sub.drop_first() =~= bytes@.subrange(off + i, off + n));
            assert(sub[0] == b);
            let p = pow256((n - i) as nat);
            assert(pow256((n - i) as nat) <= pow256(7)) by {
                lemma_pow256_mono((n - i) as nat, 7);
            }
            assert(pow256(7) == 0x100_0000_0000_0000) by {
                reveal_with_fuel(pow256, 8);
            }
            assert(acc * 256 + b < 256 * p) by (nonlinear_arith)
                requires
                    acc < p,
                    b < 256,
            ;
            assert(pow256((n - i + 1) as nat) == 256 * p);
        }
        acc = acc * 256 + b as u64;
        i = i - 1;
    }
    acc
}

pub proof fn lemma_pow256_mono(a: nat, b: nat)
    requires
        a <= b,
    ensures
        pow256(a) <= pow256(b),
    decreases b,
{
    if a < b {
        lemma_pow256_mono(a, (b - 1) as nat);
        lemma_pow256_pos((b - 1) as nat);
    }
}

/// Appends the `n`-byte little-endian encoding of `v`.
pub fn push_le(out: &mut Vec<u8>, v: u64, n: usize)
    requires
        n <= 8,
    ensures
        final(out)@ == old(out)@ + le_encode(v as nat, n as nat),
{
    let mut x: u64 = v;
    let mut i: usize = 0;
    let ghost start = out@;
    proof {
        assert(start + le_encode(v as nat, 0) =~= start);
    }
    while i < n
        invariant
            i <= n <= 8,
            start == old(out)@,
            out@ + le_encode(x as nat, (n - i) as nat) == start + le_encode(v as nat, n as nat),
        decreases n - i,
    {
        let ghost before = out@;
        let ghost rest = le_encode(x as nat, (n - i) as nat);
        proof {
            assert(rest == seq![(x % 256) as u8] + le_encode((x / 256) as nat, (n - i - 1) as nat));
        }
        out.push((x % 256) as u8);
        proof {
            assert(out@ + le_encode((x / 256) as nat, (n - i - 1) as nat) =~= before + rest);
        }
        x = x / 256;
        i = i + 1;
    }
    proof {
        assert(le_encode(x as nat, 0) =~= Seq::<u8>::empty());
        assert(out@ + Seq::<u8>::empty() =~= out@);
    }
}


/// The unsigned integer whose big-endian encoding is `s`.
pub open spec fn be_value(s: Seq<u8>) -> nat
    decreases s.len(),
{
    if s.len() == 0 {
        0
    } else {
        s.last() as nat + 256 * be_value(s.drop_last())
    }
}

/// The big-endian field of `n` bytes at `off`.
pub open spec fn be_field(s: Seq<u8>, off: int, n: int) -> nat {
    be_value(s.subrange(off, off + n))
}

pub proof fn lemma_be_value_bound(s: Seq<u8>)
    ensures
        be_value(s) < pow256(s.len()),
    decreases s.len(),
{
    if s.len() > 0 {
        lemma_be_value_bound(s.drop_last());
        let r = be_value(s.drop_last());
        let p = pow256((s.len() - 1) as nat);
        assert(s.last() as nat + 256 * r < 256 * p) by (nonlinear_arith)
            requires
                r < p,
                s.last() < 256,
        ;
    }
}

/// Reads the `n`-byte big-endian field at `off`.
pub fn read_be(bytes: &[u8], off: usize, n: usize) -> (res: u64)
    requires
        n <= 8,
        off + n <= bytes@.len(),
    ensures
        res as nat == be_field(bytes@, off as int, n as int),
{
    proof {
        lemma_pow256_values();
    }
    let len = bytes.len();
    let mut acc: u64 = 0;
    let mut i: usize = 0;
    proof {
        assert(bytes@.subrange(off as int, off as int) =~= Seq::<u8>::empty());
    }
    while i < n
        invariant
            len == bytes@.len(),
            n <= 8,
            off + n <= bytes@.len(),
            i <= n,
            acc as nat == be_value(bytes@.subrange(off as int, off + i)),
            (acc as nat) < pow256(i as nat),
            pow256(8) == 0x1_0000_0000_0000_0000,
        decreases n - i,
    {
        let b = bytes[off + i];
        proof {
            let sub = bytes@.subrange(off as int, off + i + 1);
            assert(sub.drop_last() =~= bytes@.subrange(off as int, off + i));
            assert(sub.last() == b);
            let p = pow256(i as nat);
            assert(pow256(i as nat) <= pow256(7)) by {
                lemma_pow256_mono(i as nat, 7);
            }
            assert(pow256(7) == 0x100_0000_0000_0000) by {
                reveal_with_fuel(pow256, 8);
            }
            assert(acc * 256 + b < 256 * p) by (nonlinear_arith)
                requires
                    acc < p,
                    b < 256,
            ;
            assert(pow256((i + 1) as nat) == 256 * p);
        }
        acc = acc * 256 + b as u64;
        i = i + 1;
    }
    acc
}


/// `n` is a positive power of two.
pub open spec fn power_of_two(n: int) -> bool
    decreases n,
{
    if n <= 0 {
        false
    } else if n == 1 {
        true
    } else {
        n % 2 == 0 && power_of_two(n / 2)
    }
}

/// `u64::is_power_of_two`.
pub fn is_power_of_two(x: u64) -> (res: bool)
    ensures
        res == power_of_two(x as int),
{
    let mut v = x;
    while v > 1 && v % 2 == 0
        invariant
            power_of_two(v as int) == power_of_two(x as int),
        decreases v,
    {
        v = v / 2;
    }
    v == 1
}

/// `s` with the bytes from `off` on replaced by `data`.
pub open spec fn splice(s: Seq<u8>, off: int, data: Seq<u8>) -> Seq<u8> {
    s.subrange(0, off) + data + s.subrange(off + data.len(), s.len() as int)
}

/// Overwrites `buf[off..off + data.len()]` with `data`.
pub fn write_bytes_at(buf: &mut Vec<u8>, off: usize, data: &[u8])
    requires
        off + data@.len() <= old(buf)@.len(),
    ensures
        final(buf)@ == splice(old(buf)@, off as int, data@),
{
    let len = buf.len();
    let mut i: usize = 0;
    while i < data.len()
        invariant
            len == buf@.len(),
            off + data@.len() <= buf@.len(),
            i <= data@.len(),
            buf@.len() == old(buf)@.len(),
            forall|j: int| 0 <= j < off ==> buf@[j] == old(buf)@[j],
            forall|j: int| off + data@.len() <= j < buf@.len() ==> buf@[j] == old(buf)@[j],
            forall|j: int| off <= j < off + i ==> buf@[j] == data@[j - off],
            forall|j: int| off + i <= j < off + data@.len() ==> buf@[j] == old(buf)@[j],
        decreases data@.len() - i,
    {
        buf.set(off + i, data[i]);
        i = i + 1;
    }
    assert(buf@ =~= splice(old(buf)@, off as int, data@));
}

/// Overwrites the `n` bytes at `off` with the little-endian encoding of `v`.
pub fn write_le_at(buf: &mut Vec<u8>, off: usize, v: u64, n: usize)
    requires
        n <= 8,
        off + n <= old(buf)@.len(),
    ensures
        final(buf)@ == splice(old(buf)@, off as int, le_encode(v as nat, n as nat)),
{
    let mut enc: Vec<u8> = Vec::new();
    push_le(&mut enc, v, n);
    assert(enc@ =~= le_encode(v as nat, n as nat));
    proof {
        lemma_le_encode_len(v as nat, n as nat);
    }
    write_bytes_at(buf, off, enc.as_slice());
}


/// Reads the little-endian `u16` at `off`.
pub fn read_u16_le(bytes: &[u8], off: usize) -> (res: u16)
    requires
        off + 2 <= bytes@.len(),
    ensures
        res as nat == le_field(bytes@, off as int, 2),
{
    let v = read_le(bytes, off, 2);
    proof {
        lemma_le_value_bound(bytes@.subrange(off as int, off + 2));
        lemma_pow256_values();
    }
    v as u16
}

/// Reads the little-endian `u32` at `off`.
pub fn read_u32_le(bytes: &[u8], off: usize) -> (res: u32)
    requires
        off + 4 <= bytes@.len(),
    ensures
        res as nat == le_field(bytes@, off as int, 4),
{
    let v = read_le(bytes, off, 4);
    proof {
        lemma_le_value_bound(bytes@.subrange(off as int, off + 4));
        lemma_pow256_values();
    }
    v as u32
}

} // verus!
