//! Byte-level encodings of the wire format: fixed-width big-endian integers
//! for frame headers, and the variable-length integer encoding of frame
//! bodies (one tag byte for small values, else a marker byte and a
//! little-endian integer of 2, 4, 8 or 16 bytes).

use vstd::prelude::*;

verus! {

/// `256^n`.
pub open spec fn pow256(n: nat) -> int
    decreases n,
{
    if n == 0 {
        1
    } else {
        256 * pow256((n - 1) as nat)
    }
}

/// The low `n` bytes of `v`, most significant first.
pub open spec fn be_bytes(v: int, n: nat) -> Seq<u8>
    decreases n,
{
    if n == 0 {
        seq![]
    } else {
        be_bytes(v / 256, (n - 1) as nat).push((v % 256) as u8)
    }
}

/// The value of bytes read most significant first.
pub open spec fn be_value(s: Seq<u8>) -> int
    decreases s.len(),
{
    if s.len() == 0 {
        0
    } else {
        be_value(s.drop_last()) * 256 + s.last()
    }
}

/// The low `n` bytes of `v`, least significant first.
pub open spec fn le_bytes(v: int, n: nat) -> Seq<u8>
    decreases n,
{
    if n == 0 {
        seq![]
    } else {
        seq![(v % 256) as u8] + le_bytes(v / 256, (n - 1) as nat)
    }
}

/// The value of bytes read least significant first.
pub open spec fn le_value(s: Seq<u8>) -> int
    decreases s.len(),
{
    if s.len() == 0 {
        0
    } else {
        s[0] + 256 * le_value(s.drop_first())
    }
}

/// Marker byte of a 2-byte variable-length integer.
pub const VARINT_U16: u8 = 251;

/// Marker byte of a 4-byte variable-length integer.
pub const VARINT_U32: u8 = 252;

/// Marker byte of an 8-byte variable-length integer.
pub const VARINT_U64: u8 = 253;

/// Marker byte of a 16-byte variable-length integer.
pub const VARINT_U128: u8 = 254;

/// The variable-length encoding of `v` (`0 <= v < 2^128`).
pub open spec fn varint_bytes(v: int) -> Seq<u8> {
    if v <= 250 {
        seq![v as u8]
    } else if v <= 0xffff {
        seq![VARINT_U16] + le_bytes(v, 2)
    } else if v <= 0xffff_ffff {
        seq![VARINT_U32] + le_bytes(v, 4)
    } else if v <= 0xffff_ffff_ffff_ffff {
        seq![VARINT_U64] + le_bytes(v, 8)
    } else {
        seq![VARINT_U128] + le_bytes(v, 16)
    }
}

/// Number of bytes after the tag byte of a variable-length integer.
pub open spec fn varint_payload_len(tag: u8) -> nat {
    if tag == VARINT_U16 {
        2
    } else if tag == VARINT_U32 {
        4
    } else if tag == VARINT_U64 {
        8
    } else if tag == VARINT_U128 {
        16
    } else {
        0
    }
}

/// Decodes a variable-length integer at the start of `s`: its value and the
/// number of bytes it takes, or `None` if `s` is too short or starts with 255.
pub open spec fn parse_varint(s: Seq<u8>) -> Option<(int, nat)> {
    if s.len() == 0 || s[0] == 255u8 {
        None
    } else if s[0] <= 250 {
        Some((s[0] as int, 1nat))
    } else {
        let k = varint_payload_len(s[0]);
        if s.len() < 1 + k {
            None
        } else {
            Some((le_value(s.subrange(1, 1 + k as int)), (1 + k) as nat))
        }
    }
}

pub proof fn lemma_pow256_values()
    ensures
        pow256(0) == 1,
        pow256(1) == 0x100,
        pow256(2) == 0x1_0000,
        pow256(4) == 0x1_0000_0000,
        pow256(8) == 0x1_0000_0000_0000_0000,
        pow256(16) == 0x1_0000_0000_0000_0000_0000_0000_0000_0000,
{
    reveal_with_fuel(pow256, 17);
}

pub proof fn lemma_pow256_pos(n: nat)
    ensures
        pow256(n) > 0,
    decreases n,
{
    if n > 0 {
        lemma_pow256_pos((n - 1) as nat);
    }
}

/// Big-endian bytes read back give the value modulo `256^n`.
pub proof fn lemma_be_roundtrip(v: int, n: nat)
    requires
        v >= 0,
    ensures
        be_bytes(v, n).len() == n,
        be_value(be_bytes(v, n)) == v % pow256(n),
    decreases n,
{
    if n > 0 {
        lemma_be_roundtrip(v / 256, (n - 1) as nat);
        let b = be_bytes(v, n);
        assert(b.drop_last() =~= be_bytes(v / 256, (n - 1) as nat));
        lemma_pow256_pos((n - 1) as nat);
        vstd::arithmetic::div_mod::lemma_mod_breakdown(v, 256, pow256((n - 1) as nat));
    }
}

/// Little-endian bytes read back give the value modulo `256^n`.
pub proof fn lemma_le_roundtrip(v: int, n: nat)
    requires
        v >= 0,
    ensures
        le_bytes(v, n).len() == n,
        le_value(le_bytes(v, n)) == v % pow256(n),
    decreases n,
{
    if n > 0 {
        lemma_le_roundtrip(v / 256, (n - 1) as nat);
        let b = le_bytes(v, n);
        assert(b.drop_first() =~= le_bytes(v / 256, (n - 1) as nat));
        lemma_pow256_pos((n - 1) as nat);
        vstd::arithmetic::div_mod::lemma_mod_breakdown(v, 256, pow256((n - 1) as nat));
    }
}

/// A value read from `n` bytes is below `256^n`.
pub proof fn lemma_le_value_bound(s: Seq<u8>)
    ensures
        0 <= le_value(s) < pow256(s.len()),
    decreases s.len(),
{
    if s.len() > 0 {
        lemma_le_value_bound(s.drop_first());
    }
}

/// A value read from `n` bytes is below `256^n`.
pub proof fn lemma_be_value_bound(s: Seq<u8>)
    ensures
        0 <= be_value(s) < pow256(s.len()),
    decreases s.len(),
{
    if s.len() > 0 {
        lemma_be_value_bound(s.drop_last());
        assert(pow256(s.len()) == 256 * pow256((s.len() - 1) as nat));
    }
}

/// Decoding the encoding of `v`, followed by anything, gives back `v` and the
/// length of its encoding.
pub proof fn lemma_varint_roundtrip(v: int, rest: Seq<u8>)
    requires
        0 <= v < 0x1_0000_0000_0000_0000_0000_0000_0000_0000,
    ensures
        parse_varint(varint_bytes(v) + rest) == Some((v, varint_bytes(v).len())),
        1 <= varint_bytes(v).len() <= 17,
{
    lemma_pow256_values();
    let e = varint_bytes(v);
    let s = e + rest;
    if v > 250 {
        let k: nat = if v <= 0xffff {
            2
        } else if v <= 0xffff_ffff {
            4
        } else if v <= 0xffff_ffff_ffff_ffff {
            8
        } else {
            16
        };
        lemma_le_roundtrip(v, k);
        assert(s.subrange(1, 1 + k as int) =~= le_bytes(v, k));
    }
}

/// Writes the `n` low bytes of `v` at `pos`, most significant first.
pub fn write_be_at(buf: &mut [u8], pos: usize, v: u64, n: usize)
    requires
        pos + n <= old(buf)@.len(),
        n <= 8,
    ensures
        final(buf)@.len() == old(buf)@.len(),
        final(buf)@.subrange(pos as int, pos + n) == be_bytes(v as int, n as nat),
        forall|j: int|
            0 <= j < old(buf)@.len() && !(pos <= j < pos + n) ==> #[trigger] final(buf)@[j] == old(
                buf,
            )@[j],
{
    let len = buf.len();
    let mut x = v;
    let mut i = n;
    let ghost full = be_bytes(v as int, n as nat);
    while i > 0
        invariant
            i <= n,
            len == buf@.len(),
            pos + n <= buf@.len(),
            buf@.len() == old(buf)@.len(),
            full == be_bytes(v as int, n as nat),
            be_bytes(x as int, i as nat) + buf@.subrange(pos + i, pos + n) == full,
            forall|j: int|
                0 <= j < old(buf)@.len() && !(pos + i <= j < pos + n) ==> #[trigger] buf@[j] == old(
                    buf,
                )@[j],
        decreases i,
    {
        let ghost before = buf@;
        buf[pos + i - 1] = (x % 256) as u8;
        proof {
            assert(buf@.subrange(pos + i - 1, pos + n) =~= seq![(x % 256) as u8] + before.subrange(
                pos + i,
                pos + n,
            ));
            assert(be_bytes(x as int, i as nat) == be_bytes(x as int / 256, (i - 1) as nat).push(
                (x % 256) as u8,
            ));
            assert(be_bytes(x as int / 256, (i - 1) as nat) + buf@.subrange(pos + i - 1, pos + n)
                =~= be_bytes(x as int, i as nat) + before.subrange(pos + i, pos + n));
        }
        x = x / 256;
        i = i - 1;
    }
    proof {
        assert(be_bytes(x as int, 0) + buf@.subrange(pos as int, pos + n) =~= buf@.subrange(
            pos as int,
            pos + n,
        ));
    }
}

/// Reads `n` bytes at `pos` as a big-endian integer.
pub fn read_be_at(buf: &[u8], pos: usize, n: usize) -> (v: u64)
    requires
        pos + n <= buf@.len(),
        n <= 8,
    ensures
        v as int == be_value(buf@.subrange(pos as int, pos + n)),
{
    let len = buf.len();
    let mut acc: u64 = 0;
    let mut i: usize = 0;
    while i < n
        invariant
            i <= n <= 8,
            len == buf@.len(),
            pos + n <= buf@.len(),
            acc as int == be_value(buf@.subrange(pos as int, pos + i)),
        decreases n - i,
    {
        proof {
            lemma_be_value_bound(buf@.subrange(pos as int, pos + i));
            lemma_pow256_values();
            lemma_pow256_mono(i as nat, 7);
            assert(buf@.subrange(pos as int, pos + i + 1).drop_last() =~= buf@.subrange(
                pos as int,
                pos + i,
            ));
        }
        acc = acc * 256 + buf[pos + i] as u64;
        i = i + 1;
    }
    acc
}

/// `256^a <= 256^b` for `a <= b`.
pub proof fn lemma_pow256_mono(a: nat, b: nat)
    requires
        a <= b,
    ensures
        pow256(a) <= pow256(b),
    decreases b,
{
    if a < b {
        lemma_pow256_mono(a, (b - 1) as nat);
        lemma_pow256_pos((b - 1) as nat);
    }
}


/// Writes the `n` low bytes of `v` at `pos`, least significant first.
pub fn write_le_at(buf: &mut [u8], pos: usize, v: u128, n: usize)
    requires
        pos + n <= old(buf)@.len(),
        n <= 16,
    ensures
        final(buf)@.len() == old(buf)@.len(),
        final(buf)@.subrange(pos as int, pos + n) == le_bytes(v as int, n as nat),
        forall|j: int|
            0 <= j < old(buf)@.len() && !(pos <= j < pos + n) ==> #[trigger] final(buf)@[j] == old(
                buf,
            )@[j],
{
    let len = buf.len();
    let mut x = v;
    let mut i: usize = 0;
    let ghost full = le_bytes(v as int, n as nat);
    while i < n
        invariant
            i <= n,
            len == buf@.len(),
            pos + n <= buf@.len(),
            buf@.len() == old(buf)@.len(),
            full == le_bytes(v as int, n as nat),
            buf@.subrange(pos as int, pos + i) + le_bytes(x as int, (n - i) as nat) == full,
            forall|j: int|
                0 <= j < old(buf)@.len() && !(pos <= j < pos + i) ==> #[trigger] buf@[j] == old(
                    buf,
                )@[j],
        decreases n - i,
    {
        let ghost before = buf@;
        buf[pos + i] = (x % 256) as u8;
        proof {
            assert(buf@.subrange(pos as int, pos + i + 1) =~= before.subrange(pos as int, pos + i).push(
                (x % 256) as u8,
            ));
            assert(le_bytes(x as int, (n - i) as nat) == seq![(x % 256) as u8] + le_bytes(
                x as int / 256,
                (n - i - 1) as nat,
            ));
            assert(buf@.subrange(pos as int, pos + i + 1) + le_bytes(x as int / 256, (n - i - 1) as nat)
                =~= before.subrange(pos as int, pos + i) + le_bytes(x as int, (n - i) as nat));
        }
        x = x / 256;
        i = i + 1;
    }
    proof {
        assert(buf@.subrange(pos as int, pos + n) + le_bytes(x as int, 0) =~= buf@.subrange(
            pos as int,
            pos + n,
        ));
    }
}

/// Reads `n` bytes at `pos` as a little-endian integer.
pub fn read_le_at(buf: &[u8], pos: usize, n: usize) -> (v: u128)
    requires
        pos + n <= buf@.len(),
        n <= 16,
    ensures
        v as int == le_value(buf@.subrange(pos as int, pos + n)),
{
    let len = buf.len();
    let mut acc: u128 = 0;
    let mut i: usize = n;
    proof {
        assert(buf@.subrange(pos + n, pos + n) =~= Seq::<u8>::empty());
    }
    while i > 0
        invariant
            i <= n <= 16,
            len == buf@.len(),
            pos + n <= buf@.len(),
            acc as int == le_value(buf@.subrange(pos + i, pos + n)),
        decreases i,
    {
        proof {
            lemma_le_value_bound(buf@.subrange(pos + i, pos + n));
            lemma_pow256_values();
            lemma_pow256_mono((n - i) as nat, 15);
            assert(buf@.subrange(pos + i - 1, pos + n).drop_first() =~= buf@.subrange(pos + i, pos + n));
        }
        acc = acc * 256 + buf[pos + i - 1] as u128;
        i = i - 1;
    }
    acc
}

/// Length of the variable-length encoding of `v`.
pub fn varint_len(v: u128) -> (len: usize)
    ensures
        len == varint_bytes(v as int).len(),
{
    proof {
        reveal_with_fuel(le_bytes, 17);
        lemma_le_roundtrip(v as int, 2);
        lemma_le_roundtrip(v as int, 4);
        lemma_le_roundtrip(v as int, 8);
        lemma_le_roundtrip(v as int, 16);
    }
    if v <= 250 {
        1
    } else if v <= 0xffff {
        3
    } else if v <= 0xffff_ffff {
        5
    } else if v <= 0xffff_ffff_ffff_ffff {
        9
    } else {
        17
    }
}

/// Writes the variable-length encoding of `v` at `pos`; returns its length.
pub fn write_varint_at(buf: &mut [u8], pos: usize, v: u128) -> (len: usize)
    requires
        pos + varint_bytes(v as int).len() <= old(buf)@.len(),
    ensures
        len == varint_bytes(v as int).len(),
        final(buf)@.len() == old(buf)@.len(),
        final(buf)@.subrange(pos as int, pos + len) == varint_bytes(v as int),
        forall|j: int|
            0 <= j < old(buf)@.len() && !(pos <= j < pos + len) ==> #[trigger] final(buf)@[j] == old(
                buf,
            )@[j],
{
    let len = varint_len(v);
    if v <= 250 {
        buf[pos] = v as u8;
        proof {
            assert(buf@.subrange(pos as int, pos + 1) =~= seq![v as u8]);
        }
        return 1;
    }
    let (tag, k) = if v <= 0xffff {
        (VARINT_U16, 2usize)
    } else if v <= 0xffff_ffff {
        (VARINT_U32, 4usize)
    } else if v <= 0xffff_ffff_ffff_ffff {
        (VARINT_U64, 8usize)
    } else {
        (VARINT_U128, 16usize)
    };
    proof {
        lemma_le_roundtrip(v as int, k as nat);
    }
    buf[pos] = tag;
    let ghost mid = buf@;
    write_le_at(buf, pos + 1, v, k);
    proof {
        assert(buf@.subrange(pos as int, pos + 1 + k) =~= seq![tag] + buf@.subrange(pos + 1, pos + 1 + k));
        assert(buf@[pos as int] == mid[pos as int]);
    }
    1 + k
}

/// Reads a variable-length integer at `pos`: its value and length.
pub fn read_varint_at(buf: &[u8], pos: usize) -> (r: Option<(u128, usize)>)
    requires
        pos <= buf@.len(),
    ensures
        r matches Some((v, k)) ==> parse_varint(buf@.skip(pos as int)) == Some((v as int, k as nat)),
        r is None ==> parse_varint(buf@.skip(pos as int)) is None,
{
    let s = Ghost(buf@.skip(pos as int));
    if pos >= buf.len() {
        return None;
    }
    let tag = buf[pos];
    if tag == 255 {
        return None;
    }
    if tag <= 250 {
        return Some((tag as u128, 1));
    }
    let k: usize = if tag == VARINT_U16 {
        2
    } else if tag == VARINT_U32 {
        4
    } else if tag == VARINT_U64 {
        8
    } else {
        16
    };
    if buf.len() - pos - 1 < k {
        return None;
    }
    let v = read_le_at(buf, pos + 1, k);
    proof {
        assert(s@.subrange(1, 1 + k as int) =~= buf@.subrange(pos + 1, pos + 1 + k));
    }
    Some((v, 1 + k))
}

} // verus!
