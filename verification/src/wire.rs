//! Big-endian fixed-width integers on the wire.
//!
//! The framing layer and the codec both carry unsigned integers as
//! big-endian byte strings: 4 bytes for lengths, 8 bytes for call
//! identifiers and context fields.

use vstd::prelude::*;

verus! {

/// The bytes of `n` in big-endian order, most significant byte first.
pub open spec fn be32_of(n: u32) -> Seq<u8> {
    seq![(n >> 24) as u8, (n >> 16) as u8, (n >> 8) as u8, n as u8]
}

/// The value of the first four bytes of `s` read as a big-endian integer.
pub open spec fn be32_val(s: Seq<u8>) -> nat
    recommends
        s.len() >= 4,
{
    (s[0] as nat) * 0x100_0000 + (s[1] as nat) * 0x1_0000 + (s[2] as nat) * 0x100 + (s[3] as nat)
}

/// The bytes of `n` in big-endian order, most significant byte first.
pub open spec fn be64_of(n: u64) -> Seq<u8> {
    seq![
        (n >> 56) as u8,
        (n >> 48) as u8,
        (n >> 40) as u8,
        (n >> 32) as u8,
        (n >> 24) as u8,
        (n >> 16) as u8,
        (n >> 8) as u8,
        n as u8,
    ]
}

/// The value of the first eight bytes of `s` read as a big-endian integer.
pub open spec fn be64_val(s: Seq<u8>) -> nat
    recommends
        s.len() >= 8,
{
    (s[0] as nat) * 0x100_0000_0000_0000 + (s[1] as nat) * 0x1_0000_0000_0000 + (s[2] as nat)
        * 0x100_0000_0000 + (s[3] as nat) * 0x1_0000_0000 + (s[4] as nat) * 0x100_0000 + (
    s[5] as nat) * 0x1_0000 + (s[6] as nat) * 0x100 + (s[7] as nat)
}

/// Reading back the four bytes of `be32_of(n)` yields `n`.
pub proof fn lemma_be32_round_trip(n: u32)
    ensures
        be32_of(n).len() == 4,
        be32_val(be32_of(n)) == n,
{
    assert(((n >> 24) as u8) as u32 * 0x100_0000 + ((n >> 16) as u8) as u32 * 0x1_0000 + ((n
        >> 8) as u8) as u32 * 0x100 + (n as u8) as u32 == n) by (bit_vector);
}

/// Reading back the eight bytes of `be64_of(n)` yields `n`.
pub proof fn lemma_be64_round_trip(n: u64)
    ensures
        be64_of(n).len() == 8,
        be64_val(be64_of(n)) == n,
{
    assert(((n >> 56) as u8) as u64 * 0x100_0000_0000_0000 + ((n >> 48) as u8) as u64
        * 0x1_0000_0000_0000 + ((n >> 40) as u8) as u64 * 0x100_0000_0000 + ((n >> 32) as u8) as u64
        * 0x1_0000_0000 + ((n >> 24) as u8) as u64 * 0x100_0000 + ((n >> 16) as u8) as u64
        * 0x1_0000 + ((n >> 8) as u8) as u64 * 0x100 + (n as u8) as u64 == n) by (bit_vector);
}

/// Appends the big-endian bytes of `n` to `out`.
pub fn put_be32(out: &mut Vec<u8>, n: u32)
    ensures
        final(out)@ == old(out)@ + be32_of(n),
{
    proof {
        assert((n >> 24) < 0x100 && (n >> 16) % 0x100 < 0x100) by (bit_vector);
    }
    out.push(#[verifier::truncate] ((n >> 24) as u8));
    out.push(#[verifier::truncate] ((n >> 16) as u8));
    out.push(#[verifier::truncate] ((n >> 8) as u8));
    out.push(#[verifier::truncate] (n as u8));
    proof {
        assert(final(out)@ =~= old(out)@ + be32_of(n));
    }
}

/// Appends the big-endian bytes of `n` to `out`.
pub fn put_be64(out: &mut Vec<u8>, n: u64)
    ensures
        final(out)@ == old(out)@ + be64_of(n),
{
    out.push(#[verifier::truncate] ((n >> 56) as u8));
    out.push(#[verifier::truncate] ((n >> 48) as u8));
    out.push(#[verifier::truncate] ((n >> 40) as u8));
    out.push(#[verifier::truncate] ((n >> 32) as u8));
    out.push(#[verifier::truncate] ((n >> 24) as u8));
    out.push(#[verifier::truncate] ((n >> 16) as u8));
    out.push(#[verifier::truncate] ((n >> 8) as u8));
    out.push(#[verifier::truncate] (n as u8));
    proof {
        assert(final(out)@ =~= old(out)@ + be64_of(n));
    }
}

/// Reads the big-endian integer in `s[i..i + 4]`.
pub fn get_be32(s: &Vec<u8>, i: usize) -> (r: u32)
    requires
        i + 4 <= s@.len(),
    ensures
        r as nat == be32_val(s@.skip(i as int)),
{
    let n = s.len();
    assert(i + 4 <= n);
    let b0 = s[i] as u32;
    let b1 = s[i + 1] as u32;
    let b2 = s[i + 2] as u32;
    let b3 = s[i + 3] as u32;
    b0 * 0x100_0000 + b1 * 0x1_0000 + b2 * 0x100 + b3
}

/// Reads the big-endian integer in `s[i..i + 8]`.
pub fn get_be64(s: &Vec<u8>, i: usize) -> (r: u64)
    requires
        i + 8 <= s@.len(),
    ensures
        r as nat == be64_val(s@.skip(i as int)),
{
    let n = s.len();
    assert(i + 8 <= n);
    let b0 = s[i] as u64;
    let b1 = s[i + 1] as u64;
    let b2 = s[i + 2] as u64;
    let b3 = s[i + 3] as u64;
    let b4 = s[i + 4] as u64;
    let b5 = s[i + 5] as u64;
    let b6 = s[i + 6] as u64;
    let b7 = s[i + 7] as u64;
    b0 * 0x100_0000_0000_0000 + b1 * 0x1_0000_0000_0000 + b2 * 0x100_0000_0000 + b3 * 0x1_0000_0000
        + b4 * 0x100_0000 + b5 * 0x1_0000 + b6 * 0x100 + b7
}

} // verus!
