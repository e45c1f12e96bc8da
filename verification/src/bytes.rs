//! Little-endian integers as byte sequences.
use byteorder::{ByteOrder, LittleEndian, WriteBytesExt};
use vstd::prelude::*;

verus! {

/// The four bytes of `n`, least significant first.
pub open spec fn u32_bytes(n: u32) -> Seq<u8> {
    seq![
        (n % 256) as u8,
        (n / 256 % 256) as u8,
        (n / 65536 % 256) as u8,
        (n / 16777216) as u8,
    ]
}

/// The number whose bytes, least significant first, open `s`.
#[verifier::opaque]
pub open spec fn u32_at(s: Seq<u8>, at: int) -> u32 {
    (s[at] + 256 * s[at + 1] + 65536 * s[at + 2] + 16777216 * s[at + 3]) as u32
}

/// The eight bytes of `n`, least significant first.
pub open spec fn u64_bytes(n: u64) -> Seq<u8> {
    u32_bytes((n % 0x1_0000_0000) as u32) + u32_bytes((n / 0x1_0000_0000) as u32)
}

/// The number whose eight bytes, least significant first, stand at `at`.
#[verifier::opaque]
pub open spec fn u64_at(s: Seq<u8>, at: int) -> u64 {
    (u32_at(s, at) + 0x1_0000_0000 * u32_at(s, at + 4)) as u64
}

/// The number in two's complement whose eight bytes stand at `at`.
pub open spec fn i64_at(s: Seq<u8>, at: int) -> i64 {
    let n = u64_at(s, at);
    if n < 0x8000_0000_0000_0000 {
        n as i64
    } else {
        (n - 0x1_0000_0000_0000_0000) as i64
    }
}

/// The eight bytes of `n` in two's complement, least significant first.
pub open spec fn i64_bytes(n: i64) -> Seq<u8> {
    u64_bytes((if n >= 0 { n as int } else { n + 0x1_0000_0000_0000_0000 }) as u64)
}

/// Four bytes are read back as the number that they spell.
pub proof fn u32_read_back(s: Seq<u8>, at: int, n: u32)
    requires
        0 <= at,
        at + 4 <= s.len(),
        s.subrange(at, at + 4) == u32_bytes(n),
    ensures
        u32_at(s, at) == n,
{
    reveal(u32_at);
    let t = s.subrange(at, at + 4);
    assert(t[0] == s[at] && t[1] == s[at + 1] && t[2] == s[at + 2] && t[3] == s[at + 3]);
}

/// Eight bytes are read back as the number that they spell.
pub proof fn u64_read_back(s: Seq<u8>, at: int, n: u64)
    requires
        0 <= at,
        at + 8 <= s.len(),
        s.subrange(at, at + 8) == u64_bytes(n),
    ensures
        u64_at(s, at) == n,
{
    let t = s.subrange(at, at + 8);
    let lo = (n % 0x1_0000_0000) as u32;
    let hi = (n / 0x1_0000_0000) as u32;
    assert(s.subrange(at, at + 4) =~= t.subrange(0, 4));
    assert(s.subrange(at + 4, at + 8) =~= t.subrange(4, 8));
    assert(t.subrange(0, 4) =~= u32_bytes(lo));
    assert(t.subrange(4, 8) =~= u32_bytes(hi));
    u32_read_back(s, at, lo);
    u32_read_back(s, at + 4, hi);
    reveal(u64_at);
}

/// Eight bytes in two's complement are read back as the number that they spell.
pub proof fn i64_read_back(s: Seq<u8>, at: int, n: i64)
    requires
        0 <= at,
        at + 8 <= s.len(),
        s.subrange(at, at + 8) == i64_bytes(n),
    ensures
        i64_at(s, at) == n,
{
    u64_read_back(s, at, (if n >= 0 { n as int } else { n + 0x1_0000_0000_0000_0000 }) as u64);
}

/// Four bytes are those of the number that they spell.
pub proof fn u32_written_back(s: Seq<u8>, at: int)
    requires
        0 <= at,
        at + 4 <= s.len(),
    ensures
        u32_bytes(u32_at(s, at)) == s.subrange(at, at + 4),
{
    reveal(u32_at);
    assert(u32_bytes(u32_at(s, at)) =~= s.subrange(at, at + 4));
}

proof fn halves(low: u32, high: u32)
    ensures
        ({
            let n = (low + 0x1_0000_0000 * high) as u64;
            (n % 0x1_0000_0000) as u32 == low && (n / 0x1_0000_0000) as u32 == high
        }),
{
}

/// Eight bytes are those of the number that they spell.
pub proof fn u64_written_back(s: Seq<u8>, at: int)
    requires
        0 <= at,
        at + 8 <= s.len(),
    ensures
        u64_bytes(u64_at(s, at)) == s.subrange(at, at + 8),
{
    assert(u64_bytes(u64_at(s, at)) == u32_bytes(u32_at(s, at)) + u32_bytes(u32_at(s, at + 4))) by {
        reveal(u64_at);
        halves(u32_at(s, at), u32_at(s, at + 4));
    }
    u32_written_back(s, at);
    u32_written_back(s, at + 4);
    assert(s.subrange(at, at + 8) =~= s.subrange(at, at + 4) + s.subrange(at + 4, at + 8));
}

/// Eight bytes in two's complement are those of the number that they spell.
pub proof fn i64_written_back(s: Seq<u8>, at: int)
    requires
        0 <= at,
        at + 8 <= s.len(),
    ensures
        i64_bytes(i64_at(s, at)) == s.subrange(at, at + 8),
{
    u64_written_back(s, at);
    assert(i64_bytes(i64_at(s, at)) == u64_bytes(u64_at(s, at)));
}

/// `byteorder::LittleEndian::read_u32`: the number that the first four bytes
/// spell, least significant first. It panics on a shorter slice.
#[verifier::external_body]
fn read_u32(bytes: &[u8]) -> (n: u32)
    requires
        bytes@.len() >= 4,
    ensures
        n == u32_at(bytes@, 0),
{
    LittleEndian::read_u32(bytes)
}

/// `byteorder::LittleEndian::read_u64`: the number that the first eight bytes
/// spell, least significant first. It panics on a shorter slice.
#[verifier::external_body]
fn read_u64(bytes: &[u8]) -> (n: u64)
    requires
        bytes@.len() >= 8,
    ensures
        n == u64_at(bytes@, 0),
{
    LittleEndian::read_u64(bytes)
}

/// `byteorder::LittleEndian::read_i64`: the number in two's complement that the
/// first eight bytes spell, least significant first. It panics on a shorter
/// slice.
#[verifier::external_body]
fn read_i64(bytes: &[u8]) -> (n: i64)
    requires
        bytes@.len() >= 8,
    ensures
        n == i64_at(bytes@, 0),
{
    LittleEndian::read_i64(bytes)
}

/// `byteorder::WriteBytesExt::write_u32` on a vector: appends the four bytes of
/// `n`, least significant first. Writing to a vector cannot fail.
#[verifier::external_body]
pub(crate) fn put_u32(out: &mut Vec<u8>, n: u32)
    ensures
        final(out)@ == old(out)@ + u32_bytes(n),
{
    out.write_u32::<LittleEndian>(n).unwrap()
}

/// `byteorder::WriteBytesExt::write_u64` on a vector: appends the eight bytes
/// of `n`, least significant first. Writing to a vector cannot fail.
#[verifier::external_body]
pub(crate) fn put_u64(out: &mut Vec<u8>, n: u64)
    ensures
        final(out)@ == old(out)@ + u64_bytes(n),
{
    out.write_u64::<LittleEndian>(n).unwrap()
}

/// `byteorder::WriteBytesExt::write_i64` on a vector: appends the eight bytes
/// of `n` in two's complement, least significant first. Writing to a vector
/// cannot fail.
#[verifier::external_body]
pub(crate) fn put_i64(out: &mut Vec<u8>, n: i64)
    ensures
        final(out)@ == old(out)@ + i64_bytes(n),
{
    out.write_i64::<LittleEndian>(n).unwrap()
}

/// Reads the number whose four bytes stand at `at`.
pub fn get_u32(bytes: &[u8], at: usize) -> (n: u32)
    requires
        at + 4 <= bytes.len(),
    ensures
        n == u32_at(bytes@, at as int),
{
    proof {
        reveal(u32_at);
    }
    read_u32(&bytes[at..at + 4])
}

/// Reads the number whose eight bytes stand at `at`.
pub fn get_u64(bytes: &[u8], at: usize) -> (n: u64)
    requires
        at + 8 <= bytes.len(),
    ensures
        n == u64_at(bytes@, at as int),
{
    proof {
        reveal(u32_at);
        reveal(u64_at);
    }
    read_u64(&bytes[at..at + 8])
}

/// Reads the number in two's complement whose eight bytes stand at `at`.
pub fn get_i64(bytes: &[u8], at: usize) -> (n: i64)
    requires
        at + 8 <= bytes.len(),
    ensures
        n == i64_at(bytes@, at as int),
{
    proof {
        reveal(u32_at);
        reveal(u64_at);
    }
    read_i64(&bytes[at..at + 8])
}

/// Numbers are spelled with the least significant byte first.
pub proof fn numbers_are_little_endian(s: Seq<u8>, at: int)
    requires
        0 <= at,
    ensures
        at + 4 <= s.len() ==> u32_at(s, at) == s[at] + 0x100 * s[at + 1] + 0x1_0000 * s[at + 2]
            + 0x100_0000 * s[at + 3],
        at + 8 <= s.len() ==> u64_at(s, at) == u32_at(s, at) + 0x1_0000_0000 * u32_at(s, at + 4),
{
    reveal(u32_at);
    reveal(u64_at);
}

} // verus!
