//! What to copy out of an image: every file, or the files asked for.

use crate::boot::{apploader_size, apploader_size_spec, dol_end_upto, dol_size};
use crate::bytes::{be32, word_at};
use crate::edit::{names_view, open_dirs};
use crate::errors::ReadISOError;
use crate::fst::{copy_bytes, events_of, parse_fst, parse_spec, Event, FsEntry};
use crate::path::{components, split_path};
use crate::space::ROM_SIZE;
use vstd::prelude::*;
use vstd::string::StringSliceAdditionalSpecFns;

verus! {

/// Whether every file among `ev` lies within the first `len` bytes.
pub open spec fn files_within(ev: Seq<Event>, len: int) -> bool {
    forall|i: int|
        0 <= i < ev.len() ==> (#[trigger] ev[i] matches Event::File(_, o, s) ==> o + s <= len)
}

/// Whether an image can be extracted: no longer than `ROM_SIZE`, its table
/// well formed, and its files and boot files within it.
pub open spec fn extractable(iso: Seq<u8>) -> bool {
    &&& iso.len() <= ROM_SIZE
    &&& iso.len() >= 0x245c
    &&& parse_spec(iso, be32(iso, 0x424) as int) is Some
    &&& files_within(parse_spec(iso, be32(iso, 0x424) as int)->0, iso.len() as int)
    &&& 0x2440 + apploader_size_spec(iso) <= iso.len()
    &&& be32(iso, 0x420) + 0xd8 <= iso.len()
    &&& be32(iso, 0x420) + dol_end_upto(iso.subrange(be32(iso, 0x420) as int, iso.len() as int), 18)
        <= iso.len()
}

/// What a full extraction copies out: the entries of the table, and where
/// the boot files lie (`ISO.hdr` is `[0, 0x2440)`).
pub struct ExtractPlan {
    pub entries: Vec<FsEntry>,
    pub apploader_end: u32,
    pub dol_offset: u32,
    pub dol_end: u32,
}

/// Checks whether the files of `ev` lie within `len` bytes.
fn check_files_within(fs: &Vec<FsEntry>, len: usize) -> (r: bool)
    ensures
        r == files_within(events_of(fs@), len as int),
{
    let ghost ev = events_of(fs@);
    let mut k: usize = 0;
    while k < fs.len()
        invariant
            k <= fs@.len(),
            ev == events_of(fs@),
            forall|i: int|
                0 <= i < k ==> (#[trigger] ev[i] matches Event::File(_, o, s) ==> o + s <= len),
        decreases fs@.len() - k,
    {
        assert(ev[k as int] == fs@[k as int]@);
        if let FsEntry::File { offset, size, .. } = &fs[k] {
            if *offset as u64 + *size as u64 > len as u64 {
                return false;
            }
        }
        k = k + 1;
    }
    true
}

/// Plans the extraction of a whole image held in `iso`.
pub fn plan_extract(iso: &[u8]) -> (r: Result<ExtractPlan, ReadISOError>)
    ensures
        r is Ok <==> extractable(iso@),
        r is Err ==> r matches Err(ReadISOError::InvalidISO),
        r matches Ok(p) ==> {
            &&& parse_spec(iso@, be32(iso@, 0x424) as int) == Some(events_of(p.entries@))
            &&& p.apploader_end == 0x2440 + apploader_size_spec(iso@)
            &&& p.dol_offset == be32(iso@, 0x420)
            &&& p.dol_end == p.dol_offset + dol_end_upto(
                iso@.subrange(p.dol_offset as int, iso@.len() as int),
                18,
            )
        },
{
    let len = iso.len();
    if len > ROM_SIZE as usize || len < 0x245c {
        return Err(ReadISOError::InvalidISO);
    }
    let dol_offset = word_at(iso, 0x420);
    let fst_offset = word_at(iso, 0x424);
    let entries = match parse_fst(iso, fst_offset as usize) {
        Some(e) => e,
        None => {
            return Err(ReadISOError::InvalidISO);
        },
    };
    if !check_files_within(&entries, len) {
        return Err(ReadISOError::InvalidISO);
    }
    let apploader_end = match apploader_size(iso) {
        Some(n) if n <= len as u32 - 0x2440 => 0x2440 + n,
        _ => {
            proof {
                vstd::arithmetic::power2::lemma2_to64();
                crate::space::lemma_round_up(be32(iso@, 0x2454) + be32(iso@, 0x2458), 32);
            }
            return Err(ReadISOError::InvalidISO);
        },
    };
    if dol_offset as usize > len || len - (dol_offset as usize) < 0xd8 {
        return Err(ReadISOError::InvalidISO);
    }
    let dol = slice_from(iso, dol_offset as usize);
    let dol_end = match dol_size(dol.as_slice()) {
        Some(n) if n <= (len - dol_offset as usize) as u64 => dol_offset + n as u32,
        _ => {
            return Err(ReadISOError::InvalidISO);
        },
    };
    Ok(ExtractPlan { entries, apploader_end, dol_offset, dol_end })
}

/// The bytes of `s` from `start` on.
fn slice_from(s: &[u8], start: usize) -> (r: Vec<u8>)
    requires
        start <= s@.len(),
    ensures
        r@ == s@.subrange(start as int, s@.len() as int),
{
    let mut r: Vec<u8> = Vec::new();
    let mut k: usize = start;
    while k < s.len()
        invariant
            start <= k <= s@.len(),
            r@ == s@.subrange(start as int, k as int),
        decreases s@.len() - k,
    {
        r.push(s[k]);
        k = k + 1;
        assert(r@ =~= s@.subrange(start as int, k as int));
    }
    r
}

// ---------------------------------------------------------------------------
// selected files

/// Whether event `q` is a file whose path is `path`.
pub open spec fn file_at_path(ev: Seq<Event>, q: int, path: Seq<Seq<u8>>) -> bool {
    ev[q] matches Event::File(name, _, _) && open_dirs(ev, q).push(name) == path
}

/// For the file at `q`, a copy for each request among the first `n` that
/// names its path: the request's index, the payload's offset and size.
pub open spec fn copies_for(ev: Seq<Event>, q: int, reqs: Seq<Seq<u8>>, n: int) -> Seq<(usize, u32, u32)>
    decreases n,
{
    if n <= 0 {
        Seq::empty()
    } else {
        let r = copies_for(ev, q, reqs, n - 1);
        match ev[q] {
            Event::File(_, o, s) => if file_at_path(ev, q, components(reqs[n - 1])) {
                r.push(((n - 1) as usize, o, s))
            } else {
                r
            },
            _ => r,
        }
    }
}

/// The copies for the files among the first `k` events, in order.
pub open spec fn copies_upto(ev: Seq<Event>, reqs: Seq<Seq<u8>>, k: int) -> Seq<(usize, u32, u32)>
    decreases k,
{
    if k <= 0 {
        Seq::empty()
    } else {
        copies_upto(ev, reqs, k - 1) + copies_for(ev, k - 1, reqs, reqs.len() as int)
    }
}

/// The paths asked for, as bytes.
pub open spec fn request_bytes(reqs: Seq<&str>) -> Seq<Seq<u8>> {
    reqs.map_values(|r: &str| r.spec_bytes())
}

/// Whether the path of the directories `dirs` then `name` has the
/// components `comps`.
fn path_matches(dirs: &Vec<Vec<u8>>, name: &Vec<u8>, comps: &Vec<Vec<u8>>) -> (r: bool)
    ensures
        r == (names_view(dirs@).push(name@) == names_view(comps@)),
{
    if comps.len() == 0 || comps.len() - 1 != dirs.len() {
        assert(names_view(dirs@).push(name@).len() != names_view(comps@).len());
        return false;
    }
    let mut k: usize = 0;
    while k < dirs.len()
        invariant
            k <= dirs@.len(),
            comps@.len() == dirs@.len() + 1,
            forall|j: int| 0 <= j < k ==> #[trigger] dirs@[j]@ == comps@[j]@,
        decreases dirs@.len() - k,
    {
        if !crate::path::bytes_eq(dirs[k].as_slice(), comps[k].as_slice()) {
            assert(names_view(dirs@).push(name@)[k as int] != names_view(comps@)[k as int]);
            return false;
        }
        k = k + 1;
    }
    if !crate::path::bytes_eq(name.as_slice(), comps[k].as_slice()) {
        assert(names_view(dirs@).push(name@)[k as int] != names_view(comps@)[k as int]);
        return false;
    }
    assert(names_view(dirs@).push(name@) =~= names_view(comps@));
    true
}

/// Finds the files of the table `fst` (starting at byte 0) whose paths are
/// asked for: for each file in table order, and each request naming it in
/// order, the request's index and the payload's offset and size. `None`
/// where the table is malformed.
pub fn select_files(fst: &[u8], requests: &Vec<&str>) -> (r: Option<Vec<(usize, u32, u32)>>)
    ensures
        r is None <==> parse_spec(fst@, 0) is None,
        r matches Some(c) ==> c@ == copies_upto(
            parse_spec(fst@, 0)->0,
            request_bytes(requests@),
            parse_spec(fst@, 0)->0.len() as int,
        ),
{
    let fs = match parse_fst(fst, 0) {
        Some(f) => f,
        None => {
            return None;
        },
    };
    let ghost ev = events_of(fs@);
    let ghost reqs = request_bytes(requests@);
    let mut wanted: Vec<Vec<Vec<u8>>> = Vec::new();
    let mut j: usize = 0;
    while j < requests.len()
        invariant
            j <= requests@.len(),
            reqs == request_bytes(requests@),
            wanted@.len() == j,
            forall|i: int| 0 <= i < j ==> names_view(#[trigger] wanted@[i]@) == components(reqs[i]),
        decreases requests@.len() - j,
    {
        wanted.push(split_path(requests[j].as_bytes()));
        j = j + 1;
    }
    let mut out: Vec<(usize, u32, u32)> = Vec::new();
    let mut dirs: Vec<Vec<u8>> = Vec::new();
    let mut k: usize = 0;
    assert(names_view(dirs@) =~= Seq::<Seq<u8>>::empty());
    while k < fs.len()
        invariant
            k <= fs@.len(),
            ev == events_of(fs@),
            reqs == request_bytes(requests@),
            wanted@.len() == requests@.len(),
            forall|i: int| 0 <= i < wanted@.len() ==> names_view(#[trigger] wanted@[i]@) == components(reqs[i]),
            names_view(dirs@) == open_dirs(ev, k as int),
            out@ == copies_upto(ev, reqs, k as int),
        decreases fs@.len() - k,
    {
        assert(ev[k as int] == fs@[k as int]@);
        let ghost d0 = names_view(dirs@);
        match &fs[k] {
            FsEntry::PushDir { name } => {
                dirs.push(copy_bytes(name.as_slice()));
                assert(names_view(dirs@) =~= d0.push(name@));
                assert(copies_for(ev, k as int, reqs, reqs.len() as int) =~= Seq::empty()) by {
                    lemma_copies_for_dir(ev, k as int, reqs, reqs.len() as int);
                }
                assert(out@ =~= out@ + copies_for(ev, k as int, reqs, reqs.len() as int));
            },
            FsEntry::PopDir => {
                if dirs.len() > 0 {
                    dirs.pop();
                    assert(names_view(dirs@) =~= d0.drop_last());
                }
                assert(copies_for(ev, k as int, reqs, reqs.len() as int) =~= Seq::empty()) by {
                    lemma_copies_for_dir(ev, k as int, reqs, reqs.len() as int);
                }
                assert(out@ =~= out@ + copies_for(ev, k as int, reqs, reqs.len() as int));
            },
            FsEntry::File { name, offset, size } => {
                let ghost o0 = out@;
                let mut j: usize = 0;
                while j < wanted.len()
                    invariant
                        j <= wanted@.len(),
                        k < fs@.len(),
                        ev == events_of(fs@),
                        ev[k as int] == Event::File(name@, *offset, *size),
                        reqs == request_bytes(requests@),
                        wanted@.len() == requests@.len(),
                        forall|i: int|
                            0 <= i < wanted@.len() ==> names_view(#[trigger] wanted@[i]@) == components(
                                reqs[i],
                            ),
                        names_view(dirs@) == open_dirs(ev, k as int),
                        out@ == o0 + copies_for(ev, k as int, reqs, j as int),
                    decreases wanted@.len() - j,
                {
                    let ghost o1 = out@;
                    if path_matches(&dirs, name, &wanted[j]) {
                        out.push((j, *offset, *size));
                        assert(out@ =~= o1.push((j, *offset, *size)));
                    }
                    j = j + 1;
                }
            },
        }
        k = k + 1;
    }
    Some(out)
}

proof fn lemma_copies_for_dir(ev: Seq<Event>, q: int, reqs: Seq<Seq<u8>>, n: int)
    requires
        0 <= q < ev.len(),
        !(ev[q] is File),
    ensures
        copies_for(ev, q, reqs, n) == Seq::<(usize, u32, u32)>::empty(),
    decreases n,
{
    if n > 0 {
        lemma_copies_for_dir(ev, q, reqs, n - 1);
    }
}

} // verus!
