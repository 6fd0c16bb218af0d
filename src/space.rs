//! Where payloads lie, and where new ones can go.

use crate::bytes::round_up;
use crate::fst::{events_of, Event, FsEntry};
use vstd::prelude::*;
use vstd::seq_lib::group_to_multiset_ensures;
use vstd::seq_lib::to_multiset_insert;

verus! {

/// The length of an image.
pub const ROM_SIZE: u32 = 0x57058000;

/// The alignment of file payloads: 32 KiB.
pub const FILE_ALIGN: u32 = 0x8000;

/// A payload extent: its start and its size.
pub type Extent = (u32, u32);

/// The end of an extent.
pub open spec fn ext_end(x: Extent) -> int {
    x.0 + x.1
}

/// Whether two extents share no byte.
pub open spec fn disjoint(x: Extent, y: (u32, u32)) -> bool {
    ext_end(x) <= y.0 || y.0 + y.1 <= x.0
}

/// Whether an extent shares no byte with the half-open range `r`.
pub open spec fn clear_of(x: Extent, r: (u32, u32)) -> bool {
    ext_end(x) <= r.0 || r.1 <= x.0
}

/// The extents of the files among `ev`, in order.
pub open spec fn file_extents(ev: Seq<Event>) -> Seq<Extent>
    decreases ev.len(),
{
    if ev.len() == 0 {
        Seq::empty()
    } else {
        let r = file_extents(ev.drop_last());
        match ev.last() {
            Event::File(_, offset, size) => r.push((offset, size)),
            _ => r,
        }
    }
}

/// The extents of the files among `fs`, in order.
pub fn collect_extents(fs: &Vec<FsEntry>) -> (r: Vec<Extent>)
    ensures
        r@ == file_extents(events_of(fs@)),
{
    let ghost ev = events_of(fs@);
    let mut r: Vec<Extent> = Vec::new();
    let mut k: usize = 0;
    while k < fs.len()
        invariant
            k <= fs@.len(),
            ev == events_of(fs@),
            r@ == file_extents(ev.subrange(0, k as int)),
        decreases fs@.len() - k,
    {
        assert(ev.subrange(0, k + 1).drop_last() =~= ev.subrange(0, k as int));
        assert(ev.subrange(0, k + 1).last() == fs@[k as int]@);
        match &fs[k] {
            FsEntry::File { offset, size, .. } => r.push((*offset, *size)),
            _ => {},
        }
        k = k + 1;
    }
    assert(ev.subrange(0, k as int) =~= ev);
    r
}

/// Whether extents are in order of their starts.
pub open spec fn sorted_by_start(s: Seq<Extent>) -> bool {
    forall|i: int, j: int| 0 <= i < j < s.len() ==> #[trigger] s[i].0 <= #[trigger] s[j].0
}

/// The extents in order of their starts.
pub fn sort_extents(v: &Vec<Extent>) -> (r: Vec<Extent>)
    ensures
        sorted_by_start(r@),
        r@.to_multiset() == v@.to_multiset(),
{
    broadcast use group_to_multiset_ensures;

    let mut out: Vec<Extent> = Vec::new();
    let mut k: usize = 0;
    while k < v.len()
        invariant
            k <= v@.len(),
            sorted_by_start(out@),
            out@.to_multiset() == v@.subrange(0, k as int).to_multiset(),
        decreases v@.len() - k,
    {
        let x = v[k];
        let mut pos: usize = 0;
        while pos < out.len() && out[pos].0 <= x.0
            invariant
                pos <= out@.len(),
                forall|i: int| 0 <= i < pos ==> #[trigger] out@[i].0 <= x.0,
            decreases out@.len() - pos,
        {
            pos = pos + 1;
        }
        let ghost o0 = out@;
        out.insert(pos, x);
        proof {
            to_multiset_insert(o0, pos as int, x);
            assert(out@ == o0.insert(pos as int, x));
            assert(v@.subrange(0, k + 1) =~= v@.subrange(0, k as int).push(x));
            vstd::seq_lib::to_multiset_build(v@.subrange(0, k as int), x);
            assert forall|i: int, j: int| 0 <= i < j < out@.len() implies #[trigger] out@[i].0
                <= #[trigger] out@[j].0 by {
                if j < pos {
                } else if j == pos {
                } else if i < pos {
                    assert(o0[i].0 <= x.0);
                    assert(out@[j] == o0[j - 1]);
                    if pos < o0.len() {
                        assert(o0[pos as int].0 <= o0[j - 1].0);
                    }
                } else if i == pos {
                    assert(out@[j] == o0[j - 1]);
                } else {
                }
            }
        }
        k = k + 1;
    }
    assert(v@.subrange(0, k as int) =~= v@);
    out
}

// ---------------------------------------------------------------------------
// free space

/// The first byte past the payloads of `s[0 .. k]`, and at least `floor`.
pub open spec fn reach(s: Seq<Extent>, k: int, floor: int) -> int
    decreases k,
{
    if k <= 0 {
        floor
    } else {
        let r = reach(s, k - 1, floor);
        if ext_end(s[k - 1]) > r {
            ext_end(s[k - 1])
        } else {
            r
        }
    }
}

/// The free ranges between neighbouring extents of `s[0 .. k]`: from the
/// aligned end of what comes before an extent up to its start.
pub open spec fn gaps(s: Seq<Extent>, k: int, floor: int) -> Seq<(u32, u32)>
    decreases k,
{
    if k <= 1 {
        Seq::empty()
    } else {
        let g = gaps(s, k - 1, floor);
        let a = round_up(reach(s, k - 1, floor), FILE_ALIGN as int);
        let b = if s[k - 1].0 < ROM_SIZE {
            s[k - 1].0 as int
        } else {
            ROM_SIZE as int
        };
        if a < b {
            g.push((a as u32, b as u32))
        } else {
            g
        }
    }
}

/// The free ranges left by the extents `s`, sorted by start, above `floor`:
/// the gaps between neighbours, then what follows the last one up to the
/// end of the image.
pub open spec fn free_map(s: Seq<Extent>, floor: int) -> Seq<(u32, u32)> {
    let a = round_up(reach(s, s.len() as int, floor), FILE_ALIGN as int);
    if a < ROM_SIZE {
        gaps(s, s.len() as int, floor).push((a as u32, ROM_SIZE))
    } else {
        gaps(s, s.len() as int, floor)
    }
}

/// Free ranges in order, each starting aligned at or above `floor`, ending
/// within the image, and sharing no byte with any of `exts`.
pub open spec fn free_ok(free: Seq<(u32, u32)>, exts: Seq<Extent>, floor: int) -> bool {
    &&& forall|i: int, j: int| 0 <= i < j < free.len() ==> #[trigger] free[i].1 <= #[trigger] free[j].0
    &&& forall|i: int|
        0 <= i < free.len() ==> {
            &&& (#[trigger] free[i]).0 as int % FILE_ALIGN as int == 0
            &&& floor <= free[i].0
            &&& free[i].1 <= ROM_SIZE
        }
    &&& forall|i: int, j: int|
        0 <= i < free.len() && 0 <= j < exts.len() ==> clear_of(#[trigger] exts[j], #[trigger] free[i])
}

/// What rounding up to a multiple gives.
pub proof fn lemma_round_up(n: int, m: int)
    requires
        0 <= n,
        0 < m,
    ensures
        round_up(n, m) % m == 0,
        n <= round_up(n, m) < n + m,
{
    if n % m != 0 {
        assert((n + (m - n % m)) % m == 0) by (nonlinear_arith)
            requires
                0 < m,
                0 <= n,
        {
            vstd::arithmetic::div_mod::lemma_fundamental_div_mod(n, m);
            vstd::arithmetic::div_mod::lemma_mod_multiples_basic(n / m + 1, m);
        }
    }
}

/// A multiple of `m` at or above `n` is at or above `n` rounded up.
pub proof fn lemma_round_up_le(n: int, y: int, m: int)
    requires
        0 <= n <= y,
        0 < m,
        y % m == 0,
    ensures
        round_up(n, m) <= y,
{
    lemma_round_up(n, m);
    if n % m != 0 {
        let q = n / m;
        let p = y / m;
        vstd::arithmetic::div_mod::lemma_fundamental_div_mod(n, m);
        vstd::arithmetic::div_mod::lemma_fundamental_div_mod(y, m);
        assert(y == m * p);
        assert(n == m * q + n % m);
        assert(p > q) by (nonlinear_arith)
            requires
                y == m * p,
                n == m * q + n % m,
                0 < n % m < m,
                n <= y,
                0 < m,
        ;
        assert(m * p >= m * (q + 1)) by (nonlinear_arith)
            requires
                p >= q + 1,
                0 < m,
        ;
        assert(m * (q + 1) == m * q + m) by (nonlinear_arith);
        assert(round_up(n, m) == m * q + m);
    }
}

/// `n` rounded up to a multiple of the payload alignment.
fn align_payload(n: u64) -> (r: u64)
    requires
        n <= 0x1_0000_0000_0000,
    ensures
        r == round_up(n as int, FILE_ALIGN as int),
{
    let rem = n % (FILE_ALIGN as u64);
    if rem == 0 {
        n
    } else {
        n + ((FILE_ALIGN as u64) - rem)
    }
}

proof fn lemma_reach_grows(s: Seq<Extent>, k: int, floor: int)
    requires
        0 <= k <= s.len(),
    ensures
        reach(s, k, floor) >= floor,
        forall|j: int| 0 <= j < k ==> ext_end(#[trigger] s[j]) <= reach(s, k, floor),
    decreases k,
{
    if k > 0 {
        lemma_reach_grows(s, k - 1, floor);
    }
}

/// The free ranges left by the extents `used`, sorted by start, above the end
/// of the file string table at `floor`.
pub fn free_space(used: &Vec<Extent>, floor: u32) -> (r: Vec<(u32, u32)>)
    requires
        sorted_by_start(used@),
    ensures
        r@ == free_map(used@, floor as int),
        free_ok(r@, used@, floor as int),
{
    let ghost s = used@;
    let mut r: Vec<(u32, u32)> = Vec::new();
    let mut far: u64 = floor as u64;
    let mut k: usize = 0;
    while k < used.len()
        invariant
            k <= s.len(),
            s == used@,
            sorted_by_start(s),
            far == reach(s, k as int, floor as int),
            far <= 0x2_0000_0000,
            k >= 1 ==> r@ == gaps(s, k as int, floor as int),
            k == 0 ==> r@ == Seq::<(u32, u32)>::empty(),
            forall|i: int| 0 <= i < r@.len() ==> (#[trigger] r@[i]).1 <= far,
            forall|i: int, j: int| 0 <= i < j < r@.len() ==> #[trigger] r@[i].1 <= #[trigger] r@[j].0,
            forall|i: int|
                0 <= i < r@.len() ==> {
                    &&& (#[trigger] r@[i]).0 as int % FILE_ALIGN as int == 0
                    &&& floor <= r@[i].0
                    &&& r@[i].1 <= ROM_SIZE
                },
            forall|i: int, j: int|
                0 <= i < r@.len() && 0 <= j < s.len() ==> clear_of(#[trigger] s[j], #[trigger] r@[i]),
        decreases s.len() - k,
    {
        proof {
            lemma_reach_grows(s, k as int, floor as int);
        }
        let x = used[k];
        if k >= 1 {
            let a = align_payload(far);
            let b: u32 = if x.0 < ROM_SIZE {
                x.0
            } else {
                ROM_SIZE
            };
            proof {
                lemma_round_up(far as int, FILE_ALIGN as int);
            }
            if a < b as u64 {
                let ghost r0 = r@;
                r.push((a as u32, b));
                proof {
                    assert forall|i: int, j: int|
                        0 <= i < r@.len() && 0 <= j < s.len() implies clear_of(
                        #[trigger] s[j],
                        #[trigger] r@[i],
                    ) by {
                        if i == r0.len() {
                            if j < k {
                            } else {
                                assert(s[k as int].0 <= s[j].0);
                            }
                        }
                    }
                }
            }
        }
        if (x.0 as u64) + (x.1 as u64) > far {
            far = (x.0 as u64) + (x.1 as u64);
        }
        k = k + 1;
    }
    proof {
        lemma_reach_grows(s, k as int, floor as int);
    }
    let a = align_payload(far);
    proof {
        lemma_round_up(far as int, FILE_ALIGN as int);
    }
    if a < ROM_SIZE as u64 {
        r.push((a as u32, ROM_SIZE));
    }
    proof {
        if k == 0 {
            assert(gaps(s, 0, floor as int) =~= Seq::<(u32, u32)>::empty());
        }
    }
    r
}

// ---------------------------------------------------------------------------
// placing payloads

/// Whether a payload of `size` bytes fits in the free range `r`.
pub open spec fn fits(r: (u32, u32), size: u32) -> bool {
    r.0 + size <= r.1
}

/// The first free range from `from` on where `size` bytes fit, or -1.
pub open spec fn first_fit_from(free: Seq<(u32, u32)>, size: u32, from: int) -> int
    decreases free.len() - from,
{
    if from < 0 || from >= free.len() {
        -1
    } else if fits(free[from], size) {
        from
    } else {
        first_fit_from(free, size, from + 1)
    }
}

/// The free ranges once `size` bytes are taken from the start of range `k`:
/// that range then starts at the aligned end of the payload.
pub open spec fn take_space(free: Seq<(u32, u32)>, k: int, size: u32) -> Seq<(u32, u32)> {
    free.update(k, (round_up(free[k].0 + size, FILE_ALIGN as int) as u32, free[k].1))
}

/// The first range that fits, where there is one, holds the payload.
pub proof fn lemma_first_fit_from(free: Seq<(u32, u32)>, size: u32, from: int)
    requires
        0 <= from,
    ensures
        first_fit_from(free, size, from) == -1 || (from <= first_fit_from(free, size, from)
            < free.len() && fits(free[first_fit_from(free, size, from)], size)),
    decreases free.len() - from,
{
    if from < free.len() && !fits(free[from], size) {
        lemma_first_fit_from(free, size, from + 1);
    }
}

/// Takes room for `size` bytes from the first free range where they fit,
/// and returns where the payload goes.
pub fn first_fit(free: &mut Vec<(u32, u32)>, size: u32) -> (r: Option<u32>)
    requires
        forall|i: int| 0 <= i < old(free)@.len() ==> (#[trigger] old(free)@[i]).1 <= ROM_SIZE,
    ensures
        first_fit_from(old(free)@, size, 0) == -1 ==> r is None && final(free)@ == old(free)@,
        first_fit_from(old(free)@, size, 0) >= 0 ==> {
            let k = first_fit_from(old(free)@, size, 0);
            &&& r == Some(old(free)@[k].0)
            &&& final(free)@ == take_space(old(free)@, k, size)
        },
{
    let mut k: usize = 0;
    while k < free.len()
        invariant
            k <= free@.len(),
            free@ == old(free)@,
            forall|i: int| 0 <= i < free@.len() ==> (#[trigger] free@[i]).1 <= ROM_SIZE,
            first_fit_from(free@, size, 0) == first_fit_from(free@, size, k as int),
        decreases free@.len() - k,
    {
        let (start, end) = free[k];
        if (start as u64) + (size as u64) <= end as u64 {
            let next = align_payload((start as u64) + (size as u64));
            proof {
                lemma_round_up(start + size, FILE_ALIGN as int);
                lemma_round_up_le(start + size, ROM_SIZE as int, FILE_ALIGN as int);
            }
            free.set(k, (next as u32, end));
            return Some(start);
        }
        k = k + 1;
    }
    None
}

/// Taking room for a payload keeps the free ranges in order and clear of
/// every extent, the new payload's among them.
pub proof fn lemma_take_space(free: Seq<(u32, u32)>, exts: Seq<Extent>, floor: int, size: u32, k: int)
    requires
        free_ok(free, exts, floor),
        0 <= k < free.len(),
        fits(free[k], size),
    ensures
        free_ok(take_space(free, k, size), exts.push((free[k].0, size)), floor),
        forall|j: int| 0 <= j < exts.len() ==> disjoint(#[trigger] exts[j], (free[k].0, size)),
{
    let t = take_space(free, k, size);
    let o = free[k].0;
    lemma_round_up(o + size, FILE_ALIGN as int);
    lemma_round_up_le(o + size, ROM_SIZE as int, FILE_ALIGN as int);
    let e2 = exts.push((o, size));
    assert forall|i: int, j: int| 0 <= i < t.len() && 0 <= j < e2.len() implies clear_of(
        #[trigger] e2[j],
        #[trigger] t[i],
    ) by {
        if j < exts.len() {
            assert(clear_of(exts[j], free[i]));
        } else if i < k {
            assert(free[i].1 <= free[k].0);
        } else if i > k {
            assert(free[k].1 <= free[i].0);
        }
    }
    assert forall|i: int, j: int| 0 <= i < j < t.len() implies #[trigger] t[i].1 <= #[trigger] t[j].0 by {
        assert(free[i].1 <= free[j].0);
    }
    assert forall|j: int| 0 <= j < exts.len() implies disjoint(#[trigger] exts[j], (o, size)) by {
        assert(clear_of(exts[j], free[k]));
    }
}

} // verus!
