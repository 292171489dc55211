//! Integers as bytes in either byte order, and 32-byte alignment.

use vstd::prelude::*;

verus! {

/// The order of the bytes of a multi-byte field.
#[derive(Clone, Copy, Debug, PartialEq, Eq, Structural)]
pub enum Endian {
    /// The most significant byte comes first.
    Big,
    /// The least significant byte comes first.
    Little,
}

/// The two bytes of `v`, most significant first.
pub open spec fn be16(v: u16) -> Seq<u8> {
    seq![(v / 0x100) as u8, (v % 0x100) as u8]
}

/// The four bytes of `v`, most significant first.
pub open spec fn be32(v: u32) -> Seq<u8> {
    seq![
        (v / 0x1000000) as u8,
        (v / 0x10000 % 0x100) as u8,
        (v / 0x100 % 0x100) as u8,
        (v % 0x100) as u8,
    ]
}

/// The two bytes that hold `v` in the byte order `e`.
pub open spec fn u16_bytes(v: u16, e: Endian) -> Seq<u8> {
    match e {
        Endian::Big => be16(v),
        Endian::Little => be16(v).reverse(),
    }
}

/// The four bytes that hold `v` in the byte order `e`.
pub open spec fn u32_bytes(v: u32, e: Endian) -> Seq<u8> {
    match e {
        Endian::Big => be32(v),
        Endian::Little => be32(v).reverse(),
    }
}

/// The 16-bit value held at `off` in `data`, in the byte order `e`.
pub open spec fn u16_at(data: Seq<u8>, off: int, e: Endian) -> u16 {
    match e {
        Endian::Big => (data[off] as int * 0x100 + data[off + 1] as int) as u16,
        Endian::Little => (data[off + 1] as int * 0x100 + data[off] as int) as u16,
    }
}

/// The 32-bit value held at `off` in `data`, in the byte order `e`.
pub open spec fn u32_at(data: Seq<u8>, off: int, e: Endian) -> u32 {
    match e {
        Endian::Big => (data[off] as int * 0x1000000 + data[off + 1] as int * 0x10000 + data[off
            + 2] as int * 0x100 + data[off + 3] as int) as u32,
        Endian::Little => (data[off + 3] as int * 0x1000000 + data[off + 2] as int * 0x10000
            + data[off + 1] as int * 0x100 + data[off] as int) as u32,
    }
}

/// `n` rounded up to the next multiple of 32.
pub open spec fn align32(n: int) -> int {
    (n + 31) / 32 * 32
}

/// `n` zero bytes.
pub open spec fn zeros(n: int) -> Seq<u8> {
    Seq::new(n as nat, |i: int| 0u8)
}

/// Reads the 16-bit value at `off`.
pub fn read_u16(data: &[u8], off: usize, e: Endian) -> (v: u16)
    requires
        off + 2 <= data.len(),
    ensures
        v == u16_at(data@, off as int, e),
{
    let a: u16 = data[off] as u16;
    let b: u16 = data[off + 1] as u16;
    match e {
        Endian::Big => a * 0x100 + b,
        Endian::Little => b * 0x100 + a,
    }
}

/// Reads the 32-bit value at `off`.
pub fn read_u32(data: &[u8], off: usize, e: Endian) -> (v: u32)
    requires
        off + 4 <= data.len(),
    ensures
        v == u32_at(data@, off as int, e),
{
    let a: u32 = data[off] as u32;
    let b: u32 = data[off + 1] as u32;
    let c: u32 = data[off + 2] as u32;
    let d: u32 = data[off + 3] as u32;
    match e {
        Endian::Big => a * 0x1000000 + b * 0x10000 + c * 0x100 + d,
        Endian::Little => d * 0x1000000 + c * 0x10000 + b * 0x100 + a,
    }
}

/// Appends the two bytes of `v` in the byte order `e`.
pub fn push_u16(out: &mut Vec<u8>, v: u16, e: Endian)
    ensures
        final(out)@ == old(out)@ + u16_bytes(v, e),
{
    let hi: u8 = (v / 0x100) as u8;
    let lo: u8 = (v % 0x100) as u8;
    match e {
        Endian::Big => {
            out.push(hi);
            out.push(lo);
        },
        Endian::Little => {
            out.push(lo);
            out.push(hi);
        },
    }
    assert(out@ =~= old(out)@ + u16_bytes(v, e));
}

/// Appends the four bytes of `v` in the byte order `e`.
pub fn push_u32(out: &mut Vec<u8>, v: u32, e: Endian)
    ensures
        final(out)@ == old(out)@ + u32_bytes(v, e),
{
    let a: u8 = (v / 0x1000000) as u8;
    let b: u8 = (v / 0x10000 % 0x100) as u8;
    let c: u8 = (v / 0x100 % 0x100) as u8;
    let d: u8 = (v % 0x100) as u8;
    match e {
        Endian::Big => {
            out.push(a);
            out.push(b);
            out.push(c);
            out.push(d);
        },
        Endian::Little => {
            out.push(d);
            out.push(c);
            out.push(b);
            out.push(a);
        },
    }
    assert(out@ =~= old(out)@ + u32_bytes(v, e));
}

/// Appends `n` zero bytes.
pub fn push_zeros(out: &mut Vec<u8>, n: usize)
    ensures
        final(out)@ == old(out)@ + zeros(n as int),
{
    let mut i: usize = 0;
    while i < n
        invariant
            i <= n,
            out@ == old(out)@ + zeros(i as int),
        decreases n - i,
    {
        out.push(0u8);
        i += 1;
        assert(out@ =~= old(out)@ + zeros(i as int));
    }
}

/// Appends zero bytes until the length is a multiple of 32.
pub fn pad_to_32(out: &mut Vec<u8>)
    ensures
        final(out)@ == old(out)@ + zeros(align32(old(out)@.len() as int) - old(out)@.len()),
        final(out)@.len() == align32(old(out)@.len() as int),
{
    let rest: usize = out.len() % 32;
    if rest != 0 {
        push_zeros(out, 32 - rest);
    } else {
        assert(out@ =~= old(out)@ + zeros(0));
    }
}

/// Appends the bytes of `src`.
pub fn push_bytes(out: &mut Vec<u8>, src: &[u8])
    ensures
        final(out)@ == old(out)@ + src@,
{
    let mut i: usize = 0;
    while i < src.len()
        invariant
            i <= src.len(),
            out@ == old(out)@ + src@.take(i as int),
        decreases src.len() - i,
    {
        out.push(src[i]);
        i += 1;
        assert(out@ =~= old(out)@ + src@.take(i as int));
    }
    assert(src@.take(src.len() as int) =~= src@);
}

/// A 16-bit value is read back from the bytes that hold it.
pub proof fn lemma_u16_round_trip(v: u16, e: Endian)
    ensures
        u16_bytes(v, e).len() == 2,
        u16_at(u16_bytes(v, e), 0, e) == v,
{
}

/// A 32-bit value is read back from the bytes that hold it.
pub proof fn lemma_u32_round_trip(v: u32, e: Endian)
    ensures
        u32_bytes(v, e).len() == 4,
        u32_at(u32_bytes(v, e), 0, e) == v,
{
}

} // verus!
