//! The boot files at the start of an image: `ISO.hdr`, `AppLoader.ldr` and
//! `Start.dol`.

use crate::bytes::{align, align_up, be32, word_at};
use vstd::prelude::*;

verus! {

/// Where `ISO.hdr` ends and `AppLoader.ldr` begins.
pub const APPLOADER_OFFSET: u32 = 0x2440;

/// Where the apploader's code size lies; its trailer size follows.
pub const APPLOADER_SIZES_OFFSET: u32 = 0x2454;

/// The alignment of the apploader, in bits: 32 bytes.
pub const APPLOADER_ALIGNMENT_BITS: u32 = 5;

/// The number of segments in the table of a `Start.dol`.
pub const DOL_SEGMENTS: usize = 18;

/// Where the segment sizes lie in a `Start.dol`, after the segment offsets.
pub const DOL_SIZES_OFFSET: usize = 0x90;

/// The size of `AppLoader.ldr`: its code and trailer sizes added and rounded
/// up to 32 bytes.
pub open spec fn apploader_size_spec(iso: Seq<u8>) -> int {
    align_up(be32(iso, 0x2454) + be32(iso, 0x2458), 5)
}

/// The size of `AppLoader.ldr` in an image that starts with `iso`; `None`
/// where `iso` ends before its sizes or they add up past 32 bits.
pub fn apploader_size(iso: &[u8]) -> (r: Option<u32>)
    ensures
        r matches Some(n) ==> n == apploader_size_spec(iso@),
        r is None <==> iso@.len() < 0x245c || be32(iso@, 0x2454) + be32(iso@, 0x2458) + 31
            > u32::MAX,
{
    if iso.len() < 0x245c {
        return None;
    }
    let code = word_at(iso, 0x2454);
    let trailer = word_at(iso, 0x2458);
    if code as u64 + trailer as u64 + 31 > u32::MAX as u64 {
        return None;
    }
    proof {
        vstd::arithmetic::power2::lemma2_to64();
    }
    Some(align(code + trailer, APPLOADER_ALIGNMENT_BITS))
}

/// The end of the segments `0 .. n` of the table at the start of `dol`: the
/// largest offset plus size among them.
pub open spec fn dol_end_upto(dol: Seq<u8>, n: int) -> int
    decreases n,
{
    if n <= 0 {
        0
    } else {
        let e = be32(dol, 4 * (n - 1)) + be32(dol, 0x90 + 4 * (n - 1));
        let r = dol_end_upto(dol, n - 1);
        if e > r {
            e
        } else {
            r
        }
    }
}

/// The size of the `Start.dol` whose bytes start `dol`: where its last
/// segment ends. `None` where `dol` is too short to hold the segment table.
pub fn dol_size(dol: &[u8]) -> (r: Option<u64>)
    ensures
        r matches Some(n) ==> n == dol_end_upto(dol@, 18),
        r is None <==> dol@.len() < 0xd8,
{
    if dol.len() < 0xd8 {
        return None;
    }
    let mut end: u64 = 0;
    let mut i: usize = 0;
    while i < DOL_SEGMENTS
        invariant
            i <= 18,
            dol@.len() >= 0xd8,
            end == dol_end_upto(dol@, i as int),
            end <= 0x2_0000_0000,
        decreases 18 - i,
    {
        let e = word_at(dol, 4 * i) as u64 + word_at(dol, DOL_SIZES_OFFSET + 4 * i) as u64;
        if e > end {
            end = e;
        }
        i = i + 1;
    }
    Some(end)
}

} // verus!
