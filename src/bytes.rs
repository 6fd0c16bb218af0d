//! Big-endian words and alignment.

use vstd::arithmetic::power2::pow2;
use vstd::bits::lemma_u32_shl_is_mul;
use vstd::bits::lemma_u32_pow2_no_overflow;
use vstd::prelude::*;

verus! {

/// `n` rounded up to the next multiple of `m`.
pub open spec fn round_up(n: int, m: int) -> int {
    if n % m == 0 {
        n
    } else {
        n + (m - n % m)
    }
}

/// `n` rounded up to the next multiple of `2^bits`.
pub open spec fn align_up(n: int, bits: nat) -> int {
    round_up(n, pow2(bits) as int)
}

/// The big-endian 32-bit word held by `s[off .. off + 4]`.
pub open spec fn be32(s: Seq<u8>, off: int) -> u32 {
    (s[off] as int * 0x1000000 + s[off + 1] as int * 0x10000 + s[off + 2] as int * 0x100
        + s[off + 3] as int) as u32
}

/// The four big-endian bytes of `n`.
pub open spec fn be_bytes(n: u32) -> Seq<u8> {
    seq![
        (n / 0x1000000) as u8,
        ((n / 0x10000) % 0x100) as u8,
        ((n / 0x100) % 0x100) as u8,
        (n % 0x100) as u8,
    ]
}

/// `s` with the four bytes at `off` replaced by the big-endian bytes of `n`.
pub open spec fn put_be32(s: Seq<u8>, off: int, n: u32) -> Seq<u8> {
    s.subrange(0, off) + be_bytes(n) + s.subrange(off + 4, s.len() as int)
}

/// Reading back the bytes of a word gives the word.
pub proof fn lemma_be32_of_bytes(s: Seq<u8>, off: int, n: u32)
    requires
        0 <= off,
        off + 4 <= s.len(),
        s.subrange(off, off + 4) == be_bytes(n),
    ensures
        be32(s, off) == n,
{
    assert(s[off] == be_bytes(n)[0]);
    assert(s[off + 1] == be_bytes(n)[1]);
    assert(s[off + 2] == be_bytes(n)[2]);
    assert(s[off + 3] == be_bytes(n)[3]);
}

/// Rounds `n` up to the nearest multiple of `1 << bits`.
pub fn align(n: u32, bits: u32) -> (r: u32)
    requires
        bits < 32,
        n + pow2(bits as nat) - 1 <= u32::MAX,
    ensures
        r == align_up(n as int, bits as nat),
        (r as int) % (pow2(bits as nat) as int) == 0,
        n <= r < n + pow2(bits as nat),
{
    proof {
        lemma_u32_pow2_no_overflow(bits as nat);
        lemma_u32_shl_is_mul(1, bits);
    }
    let m: u32 = 1u32 << bits;
    let rem: u32 = n % m;
    if rem == 0 {
        n
    } else {
        proof {
            assert((n - rem + m) % (m as int) == 0) by (nonlinear_arith)
                requires
                    rem == n % m,
                    m > 0,
            {
                vstd::arithmetic::div_mod::lemma_fundamental_div_mod(n as int, m as int);
                vstd::arithmetic::div_mod::lemma_mod_multiples_basic((n / m) as int + 1, m as int);
            }
        }
        assert(rem <= n) by (nonlinear_arith)
            requires
                rem == n % m,
                m > 0,
        ;
        n - rem + m
    }
}

/// The big-endian word at `offset`.
pub fn read_u32(iso: &[u8], offset: u32) -> (r: u32)
    requires
        offset + 4 <= iso@.len(),
    ensures
        r == be32(iso@, offset as int),
{
    word_at(iso, offset as usize)
}

/// The big-endian word at byte `pos` of `s`.
pub fn word_at(s: &[u8], pos: usize) -> (r: u32)
    requires
        pos + 4 <= s@.len(),
    ensures
        r == be32(s@, pos as int),
{
    (s[pos] as u32) * 0x1000000 + (s[pos + 1] as u32) * 0x10000 + (s[pos + 2] as u32) * 0x100 + (
    s[pos + 3] as u32)
}

/// Writes `n` as a big-endian word at `offset`.
pub fn write_u32(iso: &mut Vec<u8>, offset: u32, n: u32)
    requires
        offset + 4 <= old(iso)@.len(),
    ensures
        final(iso)@ == put_be32(old(iso)@, offset as int, n),
        final(iso)@.len() == old(iso)@.len(),
{
    let o = offset as usize;
    let _len = iso.len();
    iso.set(o, (n / 0x1000000) as u8);
    iso.set(o + 1, ((n / 0x10000) % 0x100) as u8);
    iso.set(o + 2, ((n / 0x100) % 0x100) as u8);
    iso.set(o + 3, (n % 0x100) as u8);
    assert(iso@ =~= put_be32(old(iso)@, offset as int, n));
}

/// Appends the bytes of `src` to `dst`.
pub fn extend_bytes(dst: &mut Vec<u8>, src: &[u8])
    ensures
        final(dst)@ == old(dst)@ + src@,
{
    let ghost start = dst@;
    let mut k: usize = 0;
    while k < src.len()
        invariant
            k <= src@.len(),
            dst@ == start + src@.subrange(0, k as int),
        decreases src@.len() - k,
    {
        dst.push(src[k]);
        k = k + 1;
        assert(dst@ =~= start + src@.subrange(0, k as int));
    }
    assert(src@.subrange(0, k as int) =~= src@);
}

/// Appends the big-endian bytes of `n` to `dst`.
pub fn push_be32(dst: &mut Vec<u8>, n: u32)
    ensures
        final(dst)@ == old(dst)@ + be_bytes(n),
{
    dst.push((n / 0x1000000) as u8);
    dst.push(((n / 0x10000) % 0x100) as u8);
    dst.push(((n / 0x100) % 0x100) as u8);
    dst.push((n % 0x100) as u8);
    assert(dst@ =~= old(dst)@ + be_bytes(n));
}

} // verus!
