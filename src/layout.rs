//! Laying out a new image from a tree of host files.

use crate::bytes::{be_bytes, push_be32, round_up};
use crate::edit::{system_data_bytes, system_data_name};
use crate::errors::WriteISOError;
use crate::fst::{events_of, lemma_toc_spec_len, next_indices_ok, same_shape, toc_spec, write_toc, Event, FsEntry};
use crate::path::{bytes_eq, lemma_name_lt_irrefl, lemma_name_lt_trans, name_lt, name_precedes};
use crate::space::{FILE_ALIGN, ROM_SIZE};
use vstd::prelude::*;
use vstd::seq_lib::group_to_multiset_ensures;
use vstd::seq_lib::to_multiset_insert;

verus! {

/// A directory or file found in a host directory.
#[derive(Debug)]
pub struct HostChild {
    pub name: Vec<u8>,
    pub is_dir: bool,
    pub size: u64,
}

/// The children without the one that holds the host's boot files.
pub open spec fn without_system(s: Seq<HostChild>) -> Seq<HostChild>
    decreases s.len(),
{
    if s.len() == 0 {
        s
    } else {
        let r = without_system(s.drop_last());
        if s.last().name@ == system_data_name() {
            r
        } else {
            r.push(s.last())
        }
    }
}

/// Whether children are in the order of their names.
pub open spec fn children_sorted(s: Seq<HostChild>) -> bool {
    forall|i: int, j: int| 0 <= i < j < s.len() ==> !name_lt(#[trigger] s[j].name@, #[trigger] s[i].name@)
}

/// The children of a host directory in the order the table keeps them:
/// ASCII case-insensitive by name, ties by byte order, with `&&systemdata`
/// left out. Children whose names compare equal keep their order.
pub fn order_children(children: Vec<HostChild>) -> (r: Vec<HostChild>)
    ensures
        children_sorted(r@),
        r@.to_multiset() == without_system(children@).to_multiset(),
{
    broadcast use group_to_multiset_ensures;

    let ghost all = children@;
    let reserved = system_data_bytes();
    let mut out: Vec<HostChild> = Vec::new();
    let mut rest = children;
    let mut taken: usize = 0;
    let total = rest.len();
    let ghost n = all.len();
    assert(without_system(all.subrange(0, 0)) =~= Seq::<HostChild>::empty());
    assert(rest@.subrange(0, n as int) =~= rest@);
    while rest.len() > 0
        invariant
            taken + rest@.len() == n,
            n == total,
            rest@ == all.subrange(taken as int, n as int),
            n == all.len(),
            reserved@ == system_data_name(),
            children_sorted(out@),
            out@.to_multiset() == without_system(all.subrange(0, taken as int)).to_multiset(),
        decreases rest@.len(),
    {
        let ghost r0 = rest@;
        let x = rest.remove(0);
        proof {
            assert(x == all[taken as int]);
            assert(rest@ =~= all.subrange(taken + 1, n as int));
            assert(all.subrange(0, taken + 1).drop_last() =~= all.subrange(0, taken as int));
            assert(all.subrange(0, taken + 1).last() == x);
        }
        let ghost gx = x;
        let ghost before = without_system(all.subrange(0, taken as int));
        if !bytes_eq(x.name.as_slice(), reserved.as_slice()) {
            let mut pos: usize = 0;
            while pos < out.len() && !name_precedes(x.name.as_slice(), out[pos].name.as_slice())
                invariant
                    pos <= out@.len(),
                    forall|i: int| 0 <= i < pos ==> !name_lt(x.name@, #[trigger] out@[i].name@),
                decreases out@.len() - pos,
            {
                pos = pos + 1;
            }
            let ghost o0 = out@;
            let ghost xn = x.name@;
            out.insert(pos, x);
            proof {
                to_multiset_insert(o0, pos as int, gx);
                assert(out@ == o0.insert(pos as int, gx));
                assert(without_system(all.subrange(0, taken + 1)) == before.push(gx));
                vstd::seq_lib::to_multiset_build(before, gx);
                assert forall|i: int, j: int| 0 <= i < j < out@.len() implies !name_lt(
                    #[trigger] out@[j].name@,
                    #[trigger] out@[i].name@,
                ) by {
                    if j < pos {
                    } else if j == pos {
                    } else if i < pos {
                        assert(out@[j] == o0[j - 1]);
                        assert(out@[i] == o0[i]);
                    } else if i == pos {
                        assert(out@[j] == o0[j - 1]);
                        assert(name_lt(xn, o0[pos as int].name@));
                        if name_lt(o0[j - 1].name@, xn) {
                            lemma_name_lt_trans(o0[j - 1].name@, xn, o0[pos as int].name@);
                            if j - 1 == pos {
                                lemma_name_lt_irrefl(xn);
                                lemma_name_lt_irrefl(o0[pos as int].name@);
                            }
                        }
                    } else {
                        assert(out@[j] == o0[j - 1]);
                        assert(out@[i] == o0[i - 1]);
                    }
                }
            }
        }
        taken = taken + 1;
    }
    assert(all.subrange(0, n as int) =~= all);
    out
}

// ---------------------------------------------------------------------------
// layout

/// The events with each file's payload placed in turn from `start` on, each
/// at the next multiple of 32 KiB; and the end of the last payload.
pub open spec fn place_upto(ev: Seq<Event>, start: int, k: int) -> (Seq<Event>, int)
    decreases k,
{
    if k <= 0 {
        (Seq::empty(), start)
    } else {
        let (placed, end) = place_upto(ev, start, k - 1);
        let (e, end2) = place_step(ev[k - 1], end);
        (placed.push(e), end2)
    }
}

/// One event with its payload placed from `end` on, and the new end.
pub open spec fn place_step(e: Event, end: int) -> (Event, int) {
    match e {
        Event::File(name, _, size) => {
            let offset = round_up(end, FILE_ALIGN as int);
            (Event::File(name, offset as u32, size), offset + size)
        },
        e => (e, end),
    }
}

/// Places the payload of one entry from `end` on; `None` where it would end
/// past the image.
fn place_one(e: &FsEntry, end: u64) -> (r: Option<(FsEntry, u64)>)
    requires
        end <= ROM_SIZE,
    ensures
        r matches Some(p) ==> (p.0@, p.1 as int) == place_step(e@, end as int) && p.1 <= ROM_SIZE,
        r is None ==> place_step(e@, end as int).1 > ROM_SIZE,
{
    match e {
        FsEntry::File { name, size, .. } => {
            let offset = align_payload_u64(end);
            if offset + *size as u64 > ROM_SIZE as u64 {
                return None;
            }
            Some(
                (
                    FsEntry::File {
                        name: crate::fst::copy_bytes(name.as_slice()),
                        offset: offset as u32,
                        size: *size,
                    },
                    offset + *size as u64,
                ),
            )
        },
        _ => Some((crate::fst::copy_entry(e), end)),
    }
}

/// Placing payloads keeps the shape of the events.
proof fn lemma_place_shape(ev: Seq<Event>, start: int, k: int)
    requires
        0 <= k <= ev.len(),
    ensures
        same_shape(ev.subrange(0, k), place_upto(ev, start, k).0),
    decreases k,
{
    if k > 0 {
        lemma_place_shape(ev, start, k - 1);
        let p = place_upto(ev, start, k).0;
        let q = place_upto(ev, start, k - 1).0;
        assert forall|i: int| 0 <= i < k - 1 implies p[i] == q[i] by {}
        assert forall|i: int| 0 <= i < k - 1 implies #[trigger] ev.subrange(0, k)[i] == ev.subrange(0, k - 1)[i] by {}
    }
}

proof fn lemma_place_end_grows(ev: Seq<Event>, start: int, k: int)
    requires
        0 <= k < ev.len(),
        0 <= start,
    ensures
        place_upto(ev, start, k).1 <= place_upto(ev, start, k + 1).1,
        place_upto(ev, start, k).1 >= start,
    decreases k,
{
    if k > 0 {
        lemma_place_end_grows(ev, start, k - 1);
    }
    crate::space::lemma_round_up(place_upto(ev, start, k).1, FILE_ALIGN as int);
}

proof fn lemma_place_end_monotone(ev: Seq<Event>, start: int, k: int, m: int)
    requires
        0 <= start,
        0 <= k <= m <= ev.len(),
    ensures
        place_upto(ev, start, k).1 <= place_upto(ev, start, m).1,
    decreases m - k,
{
    if k < m {
        lemma_place_end_grows(ev, start, m - 1);
        lemma_place_end_monotone(ev, start, k, m - 1);
    }
}

/// Placed payloads are aligned, follow `start`, end by the returned end, and
/// each ends before the next begins.
pub proof fn lemma_place_upto(ev: Seq<Event>, start: int, k: int)
    requires
        0 <= k <= ev.len(),
        0 <= start,
        place_upto(ev, start, k).1 <= u32::MAX,
    ensures
        ({
            let (placed, end) = place_upto(ev, start, k);
            &&& placed.len() == k
            &&& start <= end
            &&& forall|i: int|
                0 <= i < k ==> (#[trigger] placed[i] matches Event::File(_, o, s) ==> {
                    &&& o as int % FILE_ALIGN as int == 0
                    &&& start <= o
                    &&& o + s <= end
                })
            &&& forall|i: int, j: int|
                0 <= i < j < k ==> (#[trigger] placed[i] matches Event::File(_, o1, s1) ==> (
                #[trigger] placed[j] matches Event::File(_, o2, _) ==> o1 + s1 <= o2))
        }),
    decreases k,
{
    if k > 0 {
        let (placed, end) = place_upto(ev, start, k - 1);
        lemma_place_end_grows(ev, start, k - 1);
        crate::space::lemma_round_up(end, FILE_ALIGN as int);
        lemma_place_upto(ev, start, k - 1);
        let (grown, end2) = place_upto(ev, start, k);
        match ev[k - 1] {
            Event::File(name, _, size) => {
                let o = round_up(end, FILE_ALIGN as int);
                assert(grown == placed.push(Event::File(name, o as u32, size)));
                assert(end2 == o + size);
            },
            e => {
                assert(grown == placed.push(e));
                assert(end2 == end);
            },
        }
        assert forall|i: int| 0 <= i < k implies (#[trigger] grown[i] matches Event::File(_, o, s) ==> {
            &&& o as int % FILE_ALIGN as int == 0
            &&& start <= o
            &&& o + s <= end2
        }) by {
            if i < k - 1 {
                assert(grown[i] == placed[i]);
            }
        }
        assert forall|i: int, j: int| 0 <= i < j < k implies (#[trigger] grown[i] matches Event::File(
            _,
            o1,
            s1,
        ) ==> (#[trigger] grown[j] matches Event::File(_, o2, _) ==> o1 + s1 <= o2)) by {
            assert(grown[i] == placed[i]);
            if j < k - 1 {
                assert(grown[j] == placed[j]);
            }
        }
    }
}

/// Where a new image puts things: `ISO.hdr` first, `AppLoader.ldr` right
/// after it, `Start.dol` at `dol_offset`, the table `toc` at `fst_offset`,
/// then the payloads of `entries`; `header_info` goes to the header words.
pub struct Layout {
    pub apploader_offset: u32,
    pub dol_offset: u32,
    pub fst_offset: u32,
    pub entries: Vec<FsEntry>,
    pub toc: Vec<u8>,
    pub header_info: Vec<u8>,
    pub end: u32,
}

/// Lays out a new image from the sizes of its boot files and the events of
/// its tree, in which the sizes of the files count and their offsets do not.
/// `Start.dol` and the table start at multiples of 8 bytes.
pub fn layout_image(hdr_len: u64, apploader_len: u64, dol_len: u64, entries: &Vec<FsEntry>) -> (r: Result<
    Layout,
    WriteISOError,
>)
    ensures
        r matches Ok(l) ==> {
            &&& l.apploader_offset == hdr_len
            &&& l.dol_offset == round_up(hdr_len + apploader_len, 8)
            &&& l.fst_offset == round_up(l.dol_offset + dol_len, 8)
            &&& toc_spec(events_of(l.entries@)) == Some(l.toc@)
            &&& next_indices_ok(l.toc@)
            &&& place_upto(events_of(entries@), l.fst_offset + l.toc@.len(), entries@.len() as int)
                == (events_of(l.entries@), l.end as int)
            &&& l.end <= ROM_SIZE
            &&& forall|i: int|
                0 <= i < l.entries@.len() ==> (#[trigger] l.entries@[i]@ matches Event::File(_, o, s)
                    ==> {
                    &&& o as int % FILE_ALIGN as int == 0
                    &&& l.fst_offset + l.toc@.len() <= o
                    &&& o + s <= l.end
                })
            &&& forall|i: int, j: int|
                0 <= i < j < l.entries@.len() ==> (#[trigger] l.entries@[i]@ matches Event::File(
                    _,
                    o1,
                    s1,
                ) ==> (#[trigger] l.entries@[j]@ matches Event::File(_, o2, _) ==> o1 + s1 <= o2))
            &&& l.header_info@ == be_bytes(l.dol_offset) + be_bytes(l.fst_offset) + be_bytes(
                l.toc@.len() as u32,
            ) + be_bytes(l.toc@.len() as u32)
        },
        r is Err ==> (r matches Err(WriteISOError::ISOTooLarge)) || (r matches Err(
            WriteISOError::InvalidFilename(_),
        )),
        r matches Err(WriteISOError::InvalidFilename(_)) ==> toc_spec(events_of(entries@)) is None,
        hdr_len <= ROM_SIZE && apploader_len <= ROM_SIZE && dol_len <= ROM_SIZE && round_up(
            round_up(hdr_len + apploader_len, 8) + dol_len,
            8,
        ) <= ROM_SIZE && toc_spec(events_of(entries@)) is None ==> r matches Err(
            WriteISOError::InvalidFilename(_),
        ),
        r is Err ==> hdr_len > ROM_SIZE || apploader_len > ROM_SIZE || dol_len > ROM_SIZE
            || toc_spec(events_of(entries@)) is None || ({
            let fst_offset = round_up(round_up(hdr_len + apploader_len, 8) + dol_len, 8);
            let start = fst_offset + toc_spec(events_of(entries@))->0.len();
            start > ROM_SIZE || place_upto(events_of(entries@), start, entries@.len() as int).1 > ROM_SIZE
        }),
{
    if hdr_len > ROM_SIZE as u64 || apploader_len > ROM_SIZE as u64 || dol_len > ROM_SIZE as u64 {
        return Err(WriteISOError::ISOTooLarge);
    }
    let dol_offset = align8(hdr_len + apploader_len);
    let fst_start = align8(dol_offset + dol_len);
    if fst_start > ROM_SIZE as u64 {
        return Err(WriteISOError::ISOTooLarge);
    }
    let sized = match write_toc(entries.as_slice()) {
        Some(t) => t,
        None => {
            return Err(WriteISOError::InvalidFilename(lossy_text(overflowing_name(entries).as_slice())));
        },
    };
    if sized.len() as u64 > ROM_SIZE as u64 - fst_start {
        return Err(WriteISOError::ISOTooLarge);
    }
    let start = fst_start + sized.len() as u64;
    assert(start == round_up(round_up(hdr_len + apploader_len, 8) + dol_len, 8) + toc_spec(
        events_of(entries@),
    )->0.len());
    let ghost ev = events_of(entries@);
    let mut placed: Vec<FsEntry> = Vec::new();
    let mut end: u64 = start;
    let mut k: usize = 0;
    assert(events_of(placed@) =~= Seq::<Event>::empty());
    while k < entries.len()
        invariant
            k <= entries@.len(),
            ev == events_of(entries@),
            end <= ROM_SIZE,
            start <= ROM_SIZE,
            start == round_up(round_up(hdr_len + apploader_len, 8) + dol_len, 8) + toc_spec(ev)->0.len(),
            toc_spec(ev) is Some,
            place_upto(ev, start as int, k as int) == (events_of(placed@), end as int),
        decreases entries@.len() - k,
    {
        assert(ev[k as int] == entries@[k as int]@);
        let ghost before_k = events_of(placed@);
        match place_one(&entries[k], end) {
            Some((e, next_end)) => {
                placed.push(e);
                end = next_end;
                assert(events_of(placed@) =~= before_k.push(place_step(ev[k as int], place_upto(ev, start as int, k as int).1).0));
            },
            None => {
                proof {
                    lemma_place_end_monotone(ev, start as int, k + 1, ev.len() as int);
                    assert(place_upto(ev, start as int, ev.len() as int).1 > ROM_SIZE);
                }
                return Err(WriteISOError::ISOTooLarge);
            },
        }
        k = k + 1;
    }
    proof {
        lemma_place_shape(ev, start as int, ev.len() as int);
        assert(ev.subrange(0, ev.len() as int) =~= ev);
        lemma_toc_spec_len(ev, events_of(placed@));
    }
    // the table has the shape it had before the payloads were placed
    let toc = write_toc(placed.as_slice()).unwrap();
    assert(toc@.len() == sized@.len());
    let size = toc.len() as u32;
    proof {
        assert(place_upto(ev, start as int, entries@.len() as int).1 == end);
        lemma_place_upto(ev, start as int, entries@.len() as int);
        let pl = events_of(placed@);
        assert forall|i: int| 0 <= i < placed@.len() implies #[trigger] placed@[i]@ == pl[i] by {}
    }
    let mut header_info: Vec<u8> = Vec::new();
    push_be32(&mut header_info, dol_offset as u32);
    push_be32(&mut header_info, fst_start as u32);
    push_be32(&mut header_info, size);
    push_be32(&mut header_info, size);
    assert(header_info@ =~= be_bytes(dol_offset as u32) + be_bytes(fst_start as u32) + be_bytes(size)
        + be_bytes(size));
    Ok(
        Layout {
            apploader_offset: hdr_len as u32,
            dol_offset: dol_offset as u32,
            fst_offset: fst_start as u32,
            entries: placed,
            toc,
            header_info,
            end: end as u32,
        },
    )
}

/// The name of the first entry whose name no longer fits in the string pool,
/// or an empty name where all fit.
fn overflowing_name(fs: &Vec<FsEntry>) -> Vec<u8> {
    let mut total: usize = 0;
    let mut k: usize = 0;
    while k < fs.len()
        invariant
            k <= fs@.len(),
            total <= crate::fst::MAX_STRING_POOL,
        decreases fs@.len() - k,
    {
        match &fs[k] {
            FsEntry::PushDir { name } | FsEntry::File { name, .. } => {
                if name.len() >= crate::fst::MAX_STRING_POOL - total {
                    return crate::fst::copy_bytes(name.as_slice());
                }
                total = total + name.len() + 1;
            },
            FsEntry::PopDir => {},
        }
        k = k + 1;
    }
    Vec::new()
}

/// Relies on `String::from_utf8_lossy`: a name as text, for an error
/// message.
#[verifier::external_body]
fn lossy_text(b: &[u8]) -> String {
    String::from_utf8_lossy(b).into_owned()
}

/// `n` rounded up to a multiple of 8.
fn align8(n: u64) -> (r: u64)
    requires
        n <= 0x1_0000_0000_0000,
    ensures
        r == round_up(n as int, 8),
{
    let rem = n % 8;
    if rem == 0 {
        n
    } else {
        n + (8 - rem)
    }
}

/// `n` rounded up to a multiple of 32 KiB.
fn align_payload_u64(n: u64) -> (r: u64)
    requires
        n <= 0x1_0000_0000_0000,
    ensures
        r == round_up(n as int, FILE_ALIGN as int),
{
    let rem = n % (FILE_ALIGN as u64);
    if rem == 0 {
        n
    } else {
        n + ((FILE_ALIGN as u64) - rem)
    }
}

} // verus!
