//! Little-endian byte decoding: the leaf layer of the CR2 reader.
//!
//! Every multi-byte field of a supported CR2 file is little-endian. Each
//! decoder takes a byte window of exactly the target type's width and
//! composes the value byte by byte (shift-and-add, never a reinterpretation
//! of memory); a window of any other length yields no value.

use vstd::prelude::*;
use vstd::slice::slice_subrange;

verus! {

/// The unsigned little-endian value of a byte sequence: the byte at index 0
/// is the least significant.
pub open spec fn le_value(bytes: Seq<u8>) -> int
    decreases bytes.len(),
{
    if bytes.len() == 0 {
        0
    } else {
        bytes[0] + 256 * le_value(bytes.subrange(1, bytes.len() as int))
    }
}

/// 256 raised to the given power: how many values a window of `n` bytes can
/// encode.
pub open spec fn pow256(n: nat) -> int
    decreases n,
{
    if n == 0 {
        1
    } else {
        256 * pow256((n - 1) as nat)
    }
}

/// The two's-complement value of a byte window: negative exactly when the
/// top bit of the most significant byte is set.
pub open spec fn signed_value(bytes: Seq<u8>) -> int {
    let u = le_value(bytes);
    if 2 * u < pow256(bytes.len()) {
        u
    } else {
        u - pow256(bytes.len())
    }
}

pub proof fn lemma_pow256_pos(n: nat)
    ensures
        pow256(n) >= 1,
    decreases n,
{
    if n > 0 {
        lemma_pow256_pos((n - 1) as nat);
    }
}

pub proof fn lemma_pow256_monotonic(a: nat, b: nat)
    requires
        a <= b,
    ensures
        pow256(a) <= pow256(b),
    decreases b,
{
    if a < b {
        lemma_pow256_monotonic(a, (b - 1) as nat);
        lemma_pow256_pos((b - 1) as nat);
    }
}

pub proof fn lemma_pow256_values()
    ensures
        pow256(0) == 1,
        pow256(1) == 0x100,
        pow256(2) == 0x1_0000,
        pow256(3) == 0x100_0000,
        pow256(4) == 0x1_0000_0000,
        pow256(5) == 0x100_0000_0000,
        pow256(6) == 0x1_0000_0000_0000,
        pow256(7) == 0x100_0000_0000_0000,
        pow256(8) == 0x1_0000_0000_0000_0000,
{
    assert(pow256(0) == 1);
    assert(pow256(1) == 0x100);
    assert(pow256(2) == 0x1_0000);
    assert(pow256(3) == 0x100_0000);
    assert(pow256(4) == 0x1_0000_0000);
    assert(pow256(5) == 0x100_0000_0000);
    assert(pow256(6) == 0x1_0000_0000_0000);
    assert(pow256(7) == 0x100_0000_0000_0000);
    assert(pow256(8) == 0x1_0000_0000_0000_0000);
}

pub proof fn lemma_le_value_bound(bytes: Seq<u8>)
    ensures
        0 <= le_value(bytes) < pow256(bytes.len()),
    decreases bytes.len(),
{
    if bytes.len() > 0 {
        lemma_le_value_bound(bytes.subrange(1, bytes.len() as int));
    }
}

/// Composes up to eight little-endian bytes into their unsigned value,
/// most significant byte first so the accumulator never overflows.
pub fn le_bytes_value(w: &[u8]) -> (r: u64)
    requires
        w@.len() <= 8,
    ensures
        r == le_value(w@),
{
    let n = w.len();
    let mut acc: u64 = 0;
    let mut i: usize = n;
    proof {
        assert(w@.subrange(n as int, n as int) =~= Seq::<u8>::empty());
    }
    while i > 0
        invariant
            i <= n,
            n == w@.len(),
            n <= 8,
            acc == le_value(w@.subrange(i as int, n as int)),
            acc < pow256((n - i) as nat),
        decreases i,
    {
        i = i - 1;
        let b = w[i];
        proof {
            lemma_pow256_values();
            lemma_pow256_monotonic((n - i - 1) as nat, 7);
            assert(pow256((n - i) as nat) == 256 * pow256((n - i - 1) as nat));
        }
        acc = acc * 256 + (b as u64);
        proof {
            let s = w@.subrange(i as int, n as int);
            assert(s.subrange(1, s.len() as int) =~= w@.subrange(i as int + 1, n as int));
            assert(s[0] == w@[i as int]);
        }
    }
    proof {
        assert(w@.subrange(0, n as int) =~= w@);
    }
    acc
}

/// Decodes a window of exactly one byte as an unsigned 8-bit value.
pub fn le_u8(w: &[u8]) -> (r: Option<u8>)
    ensures
        r is Some <==> w@.len() == 1,
        r matches Some(v) ==> v == le_value(w@),
{
    if w.len() == 1 {
        proof {
            lemma_le_value_bound(w@);
            lemma_pow256_values();
        }
        Some(le_bytes_value(w) as u8)
    } else {
        None
    }
}

/// Decodes a window of exactly two bytes as an unsigned little-endian 16-bit
/// value.
pub fn le_u16(w: &[u8]) -> (r: Option<u16>)
    ensures
        r is Some <==> w@.len() == 2,
        r matches Some(v) ==> v == le_value(w@),
{
    if w.len() == 2 {
        proof {
            lemma_le_value_bound(w@);
            lemma_pow256_values();
        }
        Some(le_bytes_value(w) as u16)
    } else {
        None
    }
}

/// Decodes a window of exactly four bytes as an unsigned little-endian 32-bit
/// value.
pub fn le_u32(w: &[u8]) -> (r: Option<u32>)
    ensures
        r is Some <==> w@.len() == 4,
        r matches Some(v) ==> v == le_value(w@),
{
    if w.len() == 4 {
        proof {
            lemma_le_value_bound(w@);
            lemma_pow256_values();
        }
        Some(le_bytes_value(w) as u32)
    } else {
        None
    }
}

/// Decodes a window of exactly eight bytes as an unsigned little-endian
/// 64-bit value.
pub fn le_u64(w: &[u8]) -> (r: Option<u64>)
    ensures
        r is Some <==> w@.len() == 8,
        r matches Some(v) ==> v == le_value(w@),
{
    if w.len() == 8 {
        Some(le_bytes_value(w))
    } else {
        None
    }
}

/// Decodes a window of exactly one byte as a signed (two's-complement) 8-bit
/// value.
pub fn le_i8(w: &[u8]) -> (r: Option<i8>)
    ensures
        r is Some <==> w@.len() == 1,
        r matches Some(v) ==> v == signed_value(w@),
{
    if w.len() == 1 {
        proof {
            lemma_le_value_bound(w@);
            lemma_pow256_values();
        }
        let u = le_bytes_value(w);
        if u < 0x80 {
            Some(u as i8)
        } else {
            Some((u as i16 - 0x100) as i8)
        }
    } else {
        None
    }
}

/// Decodes a window of exactly two bytes as a signed (two's-complement)
/// little-endian 16-bit value.
pub fn le_i16(w: &[u8]) -> (r: Option<i16>)
    ensures
        r is Some <==> w@.len() == 2,
        r matches Some(v) ==> v == signed_value(w@),
{
    if w.len() == 2 {
        proof {
            lemma_le_value_bound(w@);
            lemma_pow256_values();
        }
        let u = le_bytes_value(w);
        if u < 0x8000 {
            Some(u as i16)
        } else {
            Some((u as i32 - 0x1_0000) as i16)
        }
    } else {
        None
    }
}

/// Decodes a window of exactly four bytes as a signed (two's-complement)
/// little-endian 32-bit value.
pub fn le_i32(w: &[u8]) -> (r: Option<i32>)
    ensures
        r is Some <==> w@.len() == 4,
        r matches Some(v) ==> v == signed_value(w@),
{
    if w.len() == 4 {
        proof {
            lemma_le_value_bound(w@);
            lemma_pow256_values();
        }
        let u = le_bytes_value(w);
        if u < 0x8000_0000 {
            Some(u as i32)
        } else {
            Some((u as i64 - 0x1_0000_0000) as i32)
        }
    } else {
        None
    }
}

/// Decodes a window of exactly eight bytes as a signed (two's-complement)
/// little-endian 64-bit value.
pub fn le_i64(w: &[u8]) -> (r: Option<i64>)
    ensures
        r is Some <==> w@.len() == 8,
        r matches Some(v) ==> v == signed_value(w@),
{
    if w.len() == 8 {
        proof {
            lemma_le_value_bound(w@);
            lemma_pow256_values();
        }
        let u = le_bytes_value(w);
        if u < 0x8000_0000_0000_0000 {
            Some(u as i64)
        } else {
            Some(-((u64::MAX - u) as i64) - 1)
        }
    } else {
        None
    }
}

/// Reads the unsigned little-endian 16-bit value at `off` inside `data`.
pub fn read_u16_at(data: &[u8], off: usize) -> (r: u16)
    requires
        off + 2 <= data@.len(),
    ensures
        r == le_value(data@.subrange(off as int, off as int + 2)),
{
    let _n = data.len();
    let s = slice_subrange(data, off, off + 2);
    proof {
        lemma_le_value_bound(s@);
        lemma_pow256_values();
    }
    le_bytes_value(s) as u16
}

/// Reads the unsigned little-endian 32-bit value at `off` inside `data`.
pub fn read_u32_at(data: &[u8], off: usize) -> (r: u32)
    requires
        off + 4 <= data@.len(),
    ensures
        r == le_value(data@.subrange(off as int, off as int + 4)),
{
    let _n = data.len();
    let s = slice_subrange(data, off, off + 4);
    proof {
        lemma_le_value_bound(s@);
        lemma_pow256_values();
    }
    le_bytes_value(s) as u32
}

/// Reads the unsigned little-endian 64-bit value at `off` inside `data`.
pub fn read_u64_at(data: &[u8], off: usize) -> (r: u64)
    requires
        off + 8 <= data@.len(),
    ensures
        r == le_value(data@.subrange(off as int, off as int + 8)),
{
    let _n = data.len();
    let s = slice_subrange(data, off, off + 8);
    le_bytes_value(s)
}

} // verus!

