//! The in-place editor's decisions: from the operations asked for and the
//! current table, what to write where.

use crate::bytes::{be_bytes, push_be32};
use crate::edit::{
    dirs_spec, first_named, first_stop, has_unclosed, balanced, depth, dirs_from, event_name, file_in_way, file_in_way_at, is_child, keeps, places, files_from, lemma_open_dirs_depth, lemma_open_dirs_prefix, open_dirs, all_valid, collapse_empty_dirs, collapse_upto, find_slot, make_dirs, names_view, paths_view,
    sweep_deletions, sweep_spec, valid_component, DirError,
};
use crate::errors::OperateISOError;
use crate::fst::{toc_spec, events_of, next_indices_ok, parse_fst, parse_spec, write_toc, Event, FsEntry};
use crate::path::{bytes_eq, components, split_path};
use crate::space::{
    free_map, sorted_by_start, take_space, first_fit_from, collect_extents, disjoint, ext_end, file_extents, first_fit, free_ok, free_space, lemma_take_space,
    sort_extents, Extent, FILE_ALIGN, ROM_SIZE,
};
use vstd::prelude::*;
use vstd::seq_lib::group_to_multiset_ensures;
use vstd::string::StringSliceAdditionalSpecFns;

verus! {

/// Where the header words lie: the offset of `Start.dol`, the offset of the
/// file string table, its size, and its largest size.
pub const HEADER_INFO_OFFSET: u32 = 0x420;

/// One change to an image.
#[derive(Copy, Clone, Debug)]
pub enum IsoOp<'a> {
    /// Puts the host file at `input_path` at `iso_path`, replacing what is
    /// there. `ISO.hdr`, `AppLoader.ldr` and `Start.dol` name the boot files.
    Insert { iso_path: &'a str, input_path: &'a str },
    /// Removes the file at `iso_path`, and cancels the insertions of the
    /// same path that come before it in the batch.
    Delete { iso_path: &'a str },
}

/// The boot files, which lie at fixed places rather than in the table.
#[derive(Copy, Clone, Debug, PartialEq, Eq)]
pub enum BootFile {
    IsoHdr,
    AppLoader,
    StartDol,
}

/// The path an operation names.
pub open spec fn op_path(op: IsoOp) -> Seq<u8> {
    match op {
        IsoOp::Insert { iso_path, .. } => iso_path.spec_bytes(),
        IsoOp::Delete { iso_path } => iso_path.spec_bytes(),
    }
}

/// The boot file that a path names, if any.
pub open spec fn boot_file(comps: Seq<Seq<u8>>) -> Option<BootFile> {
    if comps.len() != 1 {
        None
    } else if comps[0] == seq![0x49u8, 0x53, 0x4f, 0x2e, 0x68, 0x64, 0x72] {
        Some(BootFile::IsoHdr)
    } else if comps[0] == seq![0x41u8, 0x70, 0x70, 0x4c, 0x6f, 0x61, 0x64, 0x65, 0x72, 0x2e, 0x6c, 0x64, 0x72] {
        Some(BootFile::AppLoader)
    } else if comps[0] == seq![0x53u8, 0x74, 0x61, 0x72, 0x74, 0x2e, 0x64, 0x6f, 0x6c] {
        Some(BootFile::StartDol)
    } else {
        None
    }
}

/// Whether operation `op` puts a file into the table.
pub open spec fn is_table_insert(op: IsoOp) -> bool {
    op is Insert && boot_file(components(op_path(op))) is None
}

/// The paths whose files go, in the order of the operations: those deleted,
/// and those inserted into the table, which replace what is there.
pub open spec fn deletions_of(ops: Seq<IsoOp>) -> Seq<Seq<Seq<u8>>>
    decreases ops.len(),
{
    if ops.len() == 0 {
        Seq::empty()
    } else {
        let d = deletions_of(ops.drop_last());
        let op = ops.last();
        if op is Delete || is_table_insert(op) {
            d.push(components(op_path(op)))
        } else {
            d
        }
    }
}

/// The inserts left once those whose path is `p` are dropped.
pub open spec fn drop_path(ins: Seq<(usize, Seq<Seq<u8>>)>, p: Seq<Seq<u8>>) -> Seq<(usize, Seq<Seq<u8>>)>
    decreases ins.len(),
{
    if ins.len() == 0 {
        ins
    } else {
        let r = drop_path(ins.drop_last(), p);
        if ins.last().1 == p {
            r
        } else {
            r.push(ins.last())
        }
    }
}

/// The operations that put a file into the table, with their paths, in
/// order: a deletion that follows an insertion of the same path cancels it.
pub open spec fn table_inserts(ops: Seq<IsoOp>) -> Seq<(usize, Seq<Seq<u8>>)>
    decreases ops.len(),
{
    if ops.len() == 0 {
        Seq::empty()
    } else {
        let t = table_inserts(ops.drop_last());
        let op = ops.last();
        let p = components(op_path(op));
        if is_table_insert(op) {
            t.push(((ops.len() - 1) as usize, p))
        } else if op is Delete {
            drop_path(t, p)
        } else {
            t
        }
    }
}

/// The inserts with their paths as byte strings.
pub open spec fn inserts_view(ins: Seq<(usize, Vec<Vec<u8>>)>) -> Seq<(usize, Seq<Seq<u8>>)> {
    ins.map_values(|x: (usize, Vec<Vec<u8>>)| (x.0, names_view(x.1@)))
}

/// Whether two paths have the same components.
fn same_path(a: &Vec<Vec<u8>>, b: &Vec<Vec<u8>>) -> (r: bool)
    ensures
        r == (names_view(a@) == names_view(b@)),
{
    if a.len() != b.len() {
        assert(names_view(a@).len() != names_view(b@).len());
        return false;
    }
    let mut k: usize = 0;
    while k < a.len()
        invariant
            k <= a@.len(),
            a@.len() == b@.len(),
            forall|j: int| 0 <= j < k ==> #[trigger] a@[j]@ == b@[j]@,
        decreases a@.len() - k,
    {
        if !bytes_eq(a[k].as_slice(), b[k].as_slice()) {
            assert(names_view(a@)[k as int] != names_view(b@)[k as int]);
            return false;
        }
        k = k + 1;
    }
    assert(names_view(a@) =~= names_view(b@));
    true
}

/// Drops the inserts whose path is `p`.
fn drop_inserts(ins: &mut Vec<(usize, Vec<Vec<u8>>)>, p: &Vec<Vec<u8>>)
    ensures
        inserts_view(final(ins)@) == drop_path(inserts_view(old(ins)@), names_view(p@)),
        forall|i: int|
            0 <= i < final(ins)@.len() ==> inserts_view(old(ins)@).contains(
                #[trigger] inserts_view(final(ins)@)[i],
            ),
{
    let ghost all = ins@;
    let ghost n = all.len();
    let total = ins.len();
    let mut out: Vec<(usize, Vec<Vec<u8>>)> = Vec::new();
    let mut k: usize = 0;
    assert(inserts_view(all.subrange(0, 0)) =~= Seq::<(usize, Seq<Seq<u8>>)>::empty());
    assert(ins@ =~= all.subrange(0, n as int));
    while ins.len() > 0
        invariant
            k + ins@.len() == n,
            n == total,
            n == all.len(),
            ins@ == all.subrange(k as int, n as int),
            inserts_view(out@) == drop_path(inserts_view(all.subrange(0, k as int)), names_view(p@)),
            forall|i: int| 0 <= i < out@.len() ==> inserts_view(all).contains(#[trigger] inserts_view(out@)[i]),
        decreases ins@.len(),
    {
        let x = ins.remove(0);
        proof {
            assert(x == all[k as int]);
            assert(inserts_view(all)[k as int] == (x.0, names_view(x.1@)));
            assert(ins@ =~= all.subrange(k + 1, n as int));
            assert(inserts_view(all.subrange(0, k + 1)) =~= inserts_view(all.subrange(0, k as int)).push(
                inserts_view(all)[k as int],
            ));
            let pre = inserts_view(all.subrange(0, k + 1));
            assert(pre.drop_last() =~= inserts_view(all.subrange(0, k as int)));
            assert(pre.last() == inserts_view(all)[k as int]);
        }
        let ghost o0 = inserts_view(out@);
        if !same_path(&x.1, p) {
            out.push(x);
            proof {
                assert(inserts_view(out@) =~= o0.push(inserts_view(all)[k as int]));
                assert forall|i: int| 0 <= i < out@.len() implies inserts_view(all).contains(
                    #[trigger] inserts_view(out@)[i],
                ) by {
                    if i == o0.len() {
                        assert(inserts_view(all)[k as int] == inserts_view(out@)[i]);
                    } else {
                        assert(inserts_view(out@)[i] == o0[i]);
                    }
                }
            }
        }
        k = k + 1;
    }
    assert(all.subrange(0, n as int) =~= all);
    *ins = out;
}

/// The last operation among `ops` that replaces boot file `b`.
pub open spec fn boot_op(ops: Seq<IsoOp>, b: BootFile) -> Option<usize>
    decreases ops.len(),
{
    if ops.len() == 0 {
        None
    } else if ops.last() is Insert && boot_file(components(op_path(ops.last()))) == Some(b) {
        Some((ops.len() - 1) as usize)
    } else {
        boot_op(ops.drop_last(), b)
    }
}

/// The events of the table `fst` once the deleted and replaced files are
/// gone and the directories left empty are dropped.
pub open spec fn retained(fst: Seq<u8>, ops: Seq<IsoOp>) -> Seq<Event> {
    let swept = sweep_spec(parse_spec(fst, 0)->0, deletions_of(ops));
    collapse_upto(swept, swept.len() as int)
}

/// The edit to apply to an image, in this order: each payload written at
/// its offset, the table at `fst_offset`, then `ISO.hdr` at 0 where it is
/// replaced, `header_info` at `HEADER_INFO_OFFSET`, `AppLoader.ldr` at
/// `0x2440` and `Start.dol` at `dol_offset` where they are replaced.
pub struct IsoEdit {
    /// The events of the new table.
    pub entries: Vec<FsEntry>,
    /// For each file inserted into the table: the operation's index and
    /// where its payload goes.
    pub payloads: Vec<(usize, u32)>,
    /// The new table.
    pub toc: Vec<u8>,
    pub fst_offset: u32,
    pub dol_offset: u32,
    /// The header words, rewritten for the new table.
    pub header_info: Vec<u8>,
    /// The operations whose inputs replace the boot files.
    pub iso_hdr: Option<usize>,
    pub apploader: Option<usize>,
    pub start_dol: Option<usize>,
}

/// The boot file that `path` names, if any.
pub fn boot_file_of(path: &str) -> (r: Option<BootFile>)
    ensures
        r == boot_file(components(path.spec_bytes())),
{
    let comps = split_path(path.as_bytes());
    proof {
        assert(names_view(comps@) == components(path.spec_bytes()));
    }
    if comps.len() != 1 {
        return None;
    }
    let hdr: [u8; 7] = [0x49, 0x53, 0x4f, 0x2e, 0x68, 0x64, 0x72];
    let ldr: [u8; 13] = [0x41, 0x70, 0x70, 0x4c, 0x6f, 0x61, 0x64, 0x65, 0x72, 0x2e, 0x6c, 0x64, 0x72];
    let dol: [u8; 9] = [0x53, 0x74, 0x61, 0x72, 0x74, 0x2e, 0x64, 0x6f, 0x6c];
    proof {
        assert(hdr@ =~= seq![0x49u8, 0x53, 0x4f, 0x2e, 0x68, 0x64, 0x72]);
        assert(ldr@ =~= seq![0x41u8, 0x70, 0x70, 0x4c, 0x6f, 0x61, 0x64, 0x65, 0x72, 0x2e, 0x6c, 0x64, 0x72]);
        assert(dol@ =~= seq![0x53u8, 0x74, 0x61, 0x72, 0x74, 0x2e, 0x64, 0x6f, 0x6c]);
        assert(names_view(comps@)[0] == comps@[0]@);
    }
    if bytes_eq(comps[0].as_slice(), hdr.as_slice()) {
        Some(BootFile::IsoHdr)
    } else if bytes_eq(comps[0].as_slice(), ldr.as_slice()) {
        Some(BootFile::AppLoader)
    } else if bytes_eq(comps[0].as_slice(), dol.as_slice()) {
        Some(BootFile::StartDol)
    } else {
        None
    }
}

/// The operations sorted out: the paths whose files go, the operations that
/// insert into the table, and those that replace the boot files.
pub struct Classified {
    pub deletions: Vec<Vec<Vec<u8>>>,
    pub inserts: Vec<(usize, Vec<Vec<u8>>)>,
    pub iso_hdr: Option<usize>,
    pub apploader: Option<usize>,
    pub start_dol: Option<usize>,
}

/// Sorts the operations out.
pub fn classify(ops: &Vec<IsoOp>) -> (r: Classified)
    ensures
        paths_view(r.deletions@) == deletions_of(ops@),
        inserts_view(r.inserts@) == table_inserts(ops@),
        forall|i: int| 0 <= i < r.inserts@.len() ==> (#[trigger] r.inserts@[i]).0 < ops@.len()
            && is_table_insert(ops@[r.inserts@[i].0 as int]) && names_view(r.inserts@[i].1@)
            == components(op_path(ops@[r.inserts@[i].0 as int])),
        r.iso_hdr == boot_op(ops@, BootFile::IsoHdr),
        r.apploader == boot_op(ops@, BootFile::AppLoader),
        r.start_dol == boot_op(ops@, BootFile::StartDol),
{
    let mut c = Classified {
        deletions: Vec::new(),
        inserts: Vec::new(),
        iso_hdr: None,
        apploader: None,
        start_dol: None,
    };
    let mut k: usize = 0;
    assert(paths_view(c.deletions@) =~= Seq::<Seq<Seq<u8>>>::empty());
    while k < ops.len()
        invariant
            k <= ops@.len(),
            paths_view(c.deletions@) == deletions_of(ops@.subrange(0, k as int)),
            inserts_view(c.inserts@) == table_inserts(ops@.subrange(0, k as int)),
            forall|i: int| 0 <= i < c.inserts@.len() ==> (#[trigger] c.inserts@[i]).0 < ops@.len()
                && is_table_insert(ops@[c.inserts@[i].0 as int]) && names_view(c.inserts@[i].1@)
                == components(op_path(ops@[c.inserts@[i].0 as int])),
            c.iso_hdr == boot_op(ops@.subrange(0, k as int), BootFile::IsoHdr),
            c.apploader == boot_op(ops@.subrange(0, k as int), BootFile::AppLoader),
            c.start_dol == boot_op(ops@.subrange(0, k as int), BootFile::StartDol),
        decreases ops@.len() - k,
    {
        let ghost pre = ops@.subrange(0, k + 1);
        assert(pre.drop_last() =~= ops@.subrange(0, k as int));
        assert(pre.last() == ops@[k as int]);
        let ghost d0 = paths_view(c.deletions@);
        match ops[k] {
            IsoOp::Insert { iso_path, .. } => {
                match boot_file_of(iso_path) {
                    Some(BootFile::IsoHdr) => {
                        c.iso_hdr = Some(k);
                    },
                    Some(BootFile::AppLoader) => {
                        c.apploader = Some(k);
                    },
                    Some(BootFile::StartDol) => {
                        c.start_dol = Some(k);
                    },
                    None => {
                        let ghost i0 = inserts_view(c.inserts@);
                        let comps = split_path(iso_path.as_bytes());
                        let again = split_path(iso_path.as_bytes());
                        c.deletions.push(comps);
                        c.inserts.push((k, again));
                        assert(paths_view(c.deletions@) =~= d0.push(components(iso_path.spec_bytes())));
                        assert(inserts_view(c.inserts@) =~= i0.push((k, components(iso_path.spec_bytes()))));
                    },
                }
            },
            IsoOp::Delete { iso_path } => {
                let comps = split_path(iso_path.as_bytes());
                let ghost iv = c.inserts@;
                drop_inserts(&mut c.inserts, &comps);
                proof {
                    assert forall|i: int| 0 <= i < c.inserts@.len() implies (#[trigger] c.inserts@[i]).0
                        < ops@.len() && is_table_insert(ops@[c.inserts@[i].0 as int]) && names_view(
                        c.inserts@[i].1@,
                    ) == components(op_path(ops@[c.inserts@[i].0 as int])) by {
                        let x = inserts_view(c.inserts@)[i];
                        let j = choose|j: int| 0 <= j < iv.len() && inserts_view(iv)[j] == x;
                        assert(inserts_view(iv)[j] == (iv[j].0, names_view(iv[j].1@)));
                    }
                }
                c.deletions.push(comps);
                assert(paths_view(c.deletions@) =~= d0.push(components(iso_path.spec_bytes())));
            },
        }
        k = k + 1;
    }
    assert(ops@.subrange(0, k as int) =~= ops@);
    c
}

/// Why an edit is refused.
#[derive(Copy, Clone, Debug, PartialEq, Eq)]
pub enum EditFailure {
    BadImage,
    BadPath,
    FolderInTheWay,
    NoRoom,
    TableTooLarge,
}

/// Whether error `e` is one of kind `k`.
pub open spec fn kind_matches(e: OperateISOError, k: EditFailure) -> bool {
    match k {
        EditFailure::BadImage => e is InvalidISO,
        EditFailure::BadPath => e is InvalidISOPath,
        EditFailure::FolderInTheWay => e is FileInsertionReplicatesFolder,
        EditFailure::NoRoom => e is ISOTooLarge,
        EditFailure::TableTooLarge => e is TOCTooLarge,
    }
}

/// What inserting a file of `size` bytes at path `p` does to the events
/// `ev` and the free ranges `free`: the new events, the free ranges left, and
/// where the payload goes. Its directories are made as `dirs_spec` makes
/// them; the file replaces a file of the same name there, or goes where
/// `first_stop` puts it; its payload goes in the first free range where it
/// fits.
pub open spec fn insert_spec(ev: Seq<Event>, free: Seq<(u32, u32)>, p: Seq<Seq<u8>>, size: u64) -> Result<
    (Seq<Event>, Seq<(u32, u32)>, u32),
    EditFailure,
> {
    if !all_valid_spec(p) || p.len() == 0 {
        Err(EditFailure::BadPath)
    } else if size > u32::MAX {
        Err(EditFailure::NoRoom)
    } else {
        match dirs_spec(ev, 0, p.drop_last()) {
            Err(DirError::FileInTheWay) => Err(EditFailure::BadPath),
            Err(DirError::Unclosed) => Err(EditFailure::BadImage),
            Ok((ev1, cur)) => if has_unclosed(ev1, cur) {
                Err(EditFailure::BadImage)
            } else {
                let f = first_named(ev1, cur, p.last());
                if f is Some && ev1[f->0] is PushDir {
                    Err(EditFailure::FolderInTheWay)
                } else {
                    let k = first_fit_from(free, size as u32, 0);
                    if k == -1 {
                        Err(EditFailure::NoRoom)
                    } else {
                        let off = free[k].0;
                        let e = Event::File(p.last(), off, size as u32);
                        let ev2 = match f {
                            Some(q) => ev1.update(q, e),
                            None => ev1.insert(first_stop(ev1, cur, p.last()), e),
                        };
                        Ok((ev2, take_space(free, k, size as u32), off))
                    }
                }
            },
        }
    }
}

/// What the first `j` insertions `ti` do to the events `ev` and the free
/// ranges `free`: the events, the free ranges left, and where each payload
/// goes; or why one of them is refused.
pub open spec fn inserts_spec(
    ev: Seq<Event>,
    free: Seq<(u32, u32)>,
    ti: Seq<(usize, Seq<Seq<u8>>)>,
    sizes: Seq<u64>,
    j: int,
) -> Result<(Seq<Event>, Seq<(u32, u32)>, Seq<u32>), EditFailure>
    decreases j,
{
    if j <= 0 {
        Ok((ev, free, Seq::empty()))
    } else {
        match inserts_spec(ev, free, ti, sizes, j - 1) {
            Err(k) => Err(k),
            Ok((e1, f1, offs)) => match insert_spec(e1, f1, ti[j - 1].1, sizes[ti[j - 1].0 as int]) {
                Err(k) => Err(k),
                Ok((e2, f2, off)) => Ok((e2, f2, offs.push(off))),
            },
        }
    }
}

/// The edit of the events `kept` by the insertions `ti` (their inputs of
/// `sizes` bytes, placed in the free ranges `free`): the new events and where
/// each payload goes; refused where an insertion is, or where the new table
/// does not fit between `fst_offset` and the first payload.
pub open spec fn plan_spec(
    kept: Seq<Event>,
    ti: Seq<(usize, Seq<Seq<u8>>)>,
    sizes: Seq<u64>,
    free: Seq<(u32, u32)>,
    fst_offset: int,
) -> Result<(Seq<Event>, Seq<u32>), EditFailure> {
    match inserts_spec(kept, free, ti, sizes, ti.len() as int) {
        Err(k) => Err(k),
        Ok((ev, _, offs)) => if toc_blocked(ev, fst_offset) {
            Err(EditFailure::TableTooLarge)
        } else {
            Ok((ev, offs))
        },
    }
}

/// Whether an edit's outcome is the planned one: the same events and
/// payload places, or a refusal of the same kind.
pub open spec fn edit_matches(r: Result<IsoEdit, OperateISOError>, s: Result<(Seq<Event>, Seq<u32>), EditFailure>) -> bool {
    match s {
        Ok((ev, offs)) => r matches Ok(edit) && events_of(edit.entries@) == ev && edit.payloads@.map_values(
            |p: (usize, u32)| p.1,
        ) == offs,
        Err(k) => r is Err && kind_matches(r->Err_0, k),
    }
}

/// Once an insertion is refused, the batch is.
proof fn lemma_inserts_fail_on(
    ev: Seq<Event>,
    free: Seq<(u32, u32)>,
    ti: Seq<(usize, Seq<Seq<u8>>)>,
    sizes: Seq<u64>,
    j: int,
    m: int,
)
    requires
        1 <= j <= m,
        inserts_spec(ev, free, ti, sizes, j) is Err,
    ensures
        inserts_spec(ev, free, ti, sizes, m) == inserts_spec(ev, free, ti, sizes, j),
    decreases m - j,
{
    if j < m {
        lemma_inserts_fail_on(ev, free, ti, sizes, j, m - 1);
    }
}

/// Whether every component of a path can name something in the table.
pub open spec fn all_valid_spec(p: Seq<Seq<u8>>) -> bool {
    forall|k: int| 0 <= k < p.len() ==> valid_component(#[trigger] p[k])
}

/// Whether a directory stands where the file at path `p` would go.
pub open spec fn dir_at(ev: Seq<Event>, p: Seq<Seq<u8>>) -> bool {
    p.len() > 0 && exists|cur: int, q: int|
        0 <= cur <= ev.len() && open_dirs(ev, cur) == p.subrange(0, p.len() - 1) && is_child(ev, cur, q)
            && ev[q] == Event::PushDir(p.last())
}

/// Adding a file, or putting a file in the place of another, keeps a walk
/// balanced.
proof fn lemma_file_balanced(ev: Seq<Event>, ev2: Seq<Event>, pos: int, e: Event, replace: bool)
    requires
        balanced(ev),
        e is File,
        0 <= pos <= ev.len(),
        replace ==> pos < ev.len() && ev[pos] is File && ev2 == ev.update(pos, e),
        !replace ==> ev2 == ev.insert(pos, e),
    ensures
        balanced(ev2),
{
    assert forall|j: int| 0 <= j <= ev2.len() implies depth(ev2, 0, j) == if !replace && j > pos {
        depth(ev, 0, j - 1)
    } else {
        depth(ev, 0, j)
    } by {
        lemma_depth_file(ev, ev2, pos, e, replace, j);
    }
    assert(depth(ev2, 0, ev2.len() as int) == depth(ev, 0, ev.len() as int));
}

proof fn lemma_depth_file(ev: Seq<Event>, ev2: Seq<Event>, pos: int, e: Event, replace: bool, j: int)
    requires
        e is File,
        0 <= pos <= ev.len(),
        replace ==> pos < ev.len() && ev[pos] is File && ev2 == ev.update(pos, e),
        !replace ==> ev2 == ev.insert(pos, e),
        0 <= j <= ev2.len(),
    ensures
        depth(ev2, 0, j) == if !replace && j > pos {
            depth(ev, 0, j - 1)
        } else {
            depth(ev, 0, j)
        },
    decreases j,
{
    if j > 0 {
        lemma_depth_file(ev, ev2, pos, e, replace, j - 1);
        if !replace && j - 1 > pos {
            assert(ev2[j - 1] == ev[j - 2]);
        } else if j - 1 != pos {
            assert(ev2[j - 1] == ev[j - 1]);
        }
    }
}

/// Puts a file of `size` bytes at `path` in the table: makes its
/// directories, takes room for its payload from the first free range where
/// it fits, and adds or replaces its entry. Returns where the payload goes.
fn insert_one(
    fs: &mut Vec<FsEntry>,
    free: &mut Vec<(u32, u32)>,
    path: &str,
    size: u64,
    Ghost(exts): Ghost<Seq<Extent>>,
    Ghost(floor): Ghost<int>,
) -> (r: Result<u32, OperateISOError>)
    requires
        free_ok(old(free)@, exts, floor),
    ensures
        r matches Ok(off) ==> {
            &&& size <= u32::MAX
            &&& free_ok(final(free)@, exts.push((off, size as u32)), floor)
            &&& off as int % FILE_ALIGN as int == 0
            &&& floor <= off
            &&& off + size <= ROM_SIZE
            &&& forall|j: int| 0 <= j < exts.len() ==> disjoint(#[trigger] exts[j], (off, size as u32))
            &&& exists|q: int|
                0 <= q < final(fs)@.len() && #[trigger] final(fs)@[q]@ == Event::File(
                    components(path.spec_bytes()).last(),
                    off,
                    size as u32,
                ) && open_dirs(events_of(final(fs)@), q).push(components(path.spec_bytes()).last())
                    == components(path.spec_bytes())
            &&& forall|i: int|
                0 <= i < final(fs)@.len() && (#[trigger] final(fs)@[i]@) is File ==> events_of(
                    old(fs)@,
                ).contains(final(fs)@[i]@) || final(fs)@[i]@ == Event::File(
                    components(path.spec_bytes()).last(),
                    off,
                    size as u32,
                )
        },
        !(forall|k: int|
            0 <= k < components(path.spec_bytes()).len() ==> valid_component(
                #[trigger] components(path.spec_bytes())[k],
            )) ==> r matches Err(OperateISOError::InvalidISOPath(_)),
        components(path.spec_bytes()).len() == 0 ==> r matches Err(OperateISOError::InvalidISOPath(_)),
        balanced(events_of(old(fs)@)) ==> balanced(events_of(final(fs)@)),
        r matches Err(OperateISOError::InvalidISO) ==> !balanced(events_of(old(fs)@)),
        r matches Err(OperateISOError::InvalidISOPath(_)) ==> !all_valid_spec(components(path.spec_bytes()))
            || components(path.spec_bytes()).len() == 0 || file_in_way(
            events_of(final(fs)@),
            components(path.spec_bytes()).subrange(0, components(path.spec_bytes()).len() - 1),
        ),
        r matches Err(OperateISOError::FileInsertionReplicatesFolder(_)) ==> dir_at(
            events_of(final(fs)@),
            components(path.spec_bytes()),
        ),
        r matches Err(OperateISOError::ISOTooLarge) ==> size > u32::MAX || first_fit_from(
            old(free)@,
            size as u32,
            0,
        ) == -1,
        r is Err ==> (r matches Err(OperateISOError::InvalidISO)) || (r matches Err(
            OperateISOError::InvalidISOPath(_),
        )) || (r matches Err(OperateISOError::FileInsertionReplicatesFolder(_))) || (r matches Err(
            OperateISOError::ISOTooLarge,
        )),
        dirs_from(
            events_of(final(fs)@),
            events_of(old(fs)@),
            components(path.spec_bytes()).subrange(0, components(path.spec_bytes()).len() - 1),
        ),
        r is Err ==> files_from(events_of(final(fs)@), events_of(old(fs)@)),
        r is Ok ==> first_fit_from(old(free)@, size as u32, 0) >= 0 && final(free)@ == take_space(
            old(free)@,
            first_fit_from(old(free)@, size as u32, 0),
            size as u32,
        ),
        r is Ok ==> forall|i: int|
            0 <= i < old(fs)@.len() && !(old(fs)@[i]@ is File && event_name(old(fs)@[i]@) == Some(
                components(path.spec_bytes()).last(),
            )) ==> events_of(final(fs)@).contains(#[trigger] old(fs)@[i]@),
        match insert_spec(events_of(old(fs)@), old(free)@, components(path.spec_bytes()), size) {
            Ok((ev, fr, off)) => r == Ok::<u32, OperateISOError>(off) && events_of(final(fs)@) == ev
                && final(free)@ == fr,
            Err(k) => r is Err && kind_matches(r->Err_0, k),
        },
{
    proof {
        let ev0 = events_of(fs@);
        assert forall|i: int| 0 <= i < ev0.len() && (#[trigger] ev0[i]) is PushDir implies ev0.contains(
            ev0[i],
        ) by {}
        assert forall|i: int| 0 <= i < ev0.len() && (#[trigger] ev0[i]) is File implies ev0.contains(ev0[i]) by {}
    }
    let comps = split_path(path.as_bytes());
    let ghost cv = names_view(comps@);
    assert(cv == components(path.spec_bytes()));
    assert(forall|k: int| 0 <= k < cv.len() ==> #[trigger] cv[k] == comps@[k]@);
    if !all_valid(&comps) {
        let ghost bad = choose|j: int| 0 <= j < comps@.len() && !valid_component(#[trigger] comps@[j]@);
        assert(!valid_component(cv[bad]));
        return Err(OperateISOError::InvalidISOPath(path.to_owned()));
    }
    if comps.len() == 0 {
        return Err(OperateISOError::InvalidISOPath(path.to_owned()));
    }
    if size > u32::MAX as u64 {
        return Err(OperateISOError::ISOTooLarge);
    }
    let size = size as u32;
    let last = comps.len() - 1;
    assert(cv.subrange(0, last as int) =~= cv.drop_last());
    let ghost ev_start = events_of(fs@);
    assert(ev_start == events_of(old(fs)@));
    let made = make_dirs(fs, &comps, last);
    let cur = match made {
        Ok(c) => c,
        Err(DirError::FileInTheWay) => {
            return Err(OperateISOError::InvalidISOPath(path.to_owned()));
        },
        Err(DirError::Unclosed) => {
            return Err(OperateISOError::InvalidISO);
        },
    };
    let ghost ev1 = events_of(fs@);
    assert(dirs_spec(ev_start, 0, cv.drop_last()) == Ok::<(Seq<Event>, int), DirError>((ev1, cur as int)));
    let name = &comps[last];
    assert(name@ == cv.last());
    proof {
        assert(cv.subrange(0, last as int) == components(path.spec_bytes()).subrange(
            0,
            components(path.spec_bytes()).len() - 1,
        ));
    }
    let slot = match find_slot(fs, cur, name) {
        Some(s) => s,
        None => {
            return Err(OperateISOError::InvalidISO);
        },
    };
    if let Some(q) = slot.found {
        if let FsEntry::PushDir { .. } = &fs[q] {
            proof {
                let ev = events_of(fs@);
                assert(ev[q as int] == fs@[q as int]@);
                assert(ev[q as int] == Event::PushDir(cv.last()));
                assert(dir_at(ev, cv)) by {
                    assert(open_dirs(ev, cur as int) == cv.subrange(0, cv.len() - 1));
                    assert(is_child(ev, cur as int, q as int));
                }
            }
            return Err(OperateISOError::FileInsertionReplicatesFolder(path.to_owned()));
        }
    }
    let ghost f0 = free@;
    proof {
        assert forall|i: int| 0 <= i < free@.len() implies (#[trigger] free@[i]).1 <= ROM_SIZE by {
            assert(free_ok(f0, exts, floor));
        }
    }
    let offset = match first_fit(free, size) {
        Some(o) => o,
        None => {
            proof {
                crate::space::lemma_first_fit_from(f0, size, 0);
            }
            return Err(OperateISOError::ISOTooLarge);
        },
    };
    proof {
        let k = crate::space::first_fit_from(f0, size, 0);
        crate::space::lemma_first_fit_from(f0, size, 0);
        lemma_take_space(f0, exts, floor, size, k);
    }
    let entry = FsEntry::File { name: crate::fst::copy_bytes(name.as_slice()), offset, size };
    let ghost ev = events_of(fs@);
    let q = match slot.found {
        Some(q) => q,
        None => slot.pos,
    };
    proof {
        lemma_open_dirs_depth(ev, cur as int, q as int);
        assert(open_dirs(ev, cur as int).subrange(0, open_dirs(ev, cur as int).len() as int)
            =~= open_dirs(ev, cur as int));
        assert(cv =~= cv.subrange(0, last as int).push(name@));
    }
    match slot.found {
        Some(q) => {
            fs.set(q, entry);
        },
        None => {
            fs.insert(slot.pos, entry);
        },
    }
    proof {
        let ev2 = events_of(fs@);
        let ev0 = events_of(old(fs)@);
        let fe = Event::File(cv.last(), offset, size);
        match slot.found {
            Some(qq) => {
                assert(ev2 =~= ev.update(q as int, fe));
                assert(ev[q as int] is File);
                if balanced(ev0) {
                    lemma_file_balanced(ev, ev2, q as int, fe, true);
                }
            },
            None => {
                assert(ev2 =~= ev.insert(q as int, fe));
                if balanced(ev0) {
                    lemma_file_balanced(ev, ev2, q as int, fe, false);
                }
            },
        }
        assert forall|i: int| 0 <= i < ev2.len() && (#[trigger] ev2[i]) is PushDir implies ev0.contains(ev2[i])
            || exists|m: int| 0 <= m < cv.subrange(0, last as int).len() && ev2[i] == Event::PushDir(
                cv.subrange(0, last as int)[m],
            ) by {
            let j = if i < q || slot.found is Some { i } else { i - 1 };
            assert(ev[j] == ev2[i]);
        }
        let f = choose|f: Seq<int>| places(f, ev0, ev);
        assert forall|i: int|
            0 <= i < ev0.len() && !(ev0[i] is File && event_name(ev0[i]) == Some(cv.last())) implies ev2.contains(
            #[trigger] ev0[i],
        ) by {
            let at = f[i];
            assert(ev[at] == ev0[i]);
            if slot.found is Some {
                assert(at != q);
                assert(ev2[at] == ev[at]);
            } else if at < q {
                assert(ev2[at] == ev[at]);
            } else {
                assert(ev2[at + 1] == ev[at]);
            }
        }
        assert forall|i: int|
            0 <= i < old(fs)@.len() && !(old(fs)@[i]@ is File && event_name(old(fs)@[i]@) == Some(cv.last()))
                implies events_of(fs@).contains(#[trigger] old(fs)@[i]@) by {
            assert(ev0[i] == old(fs)@[i]@);
        }
        assert(ev2.subrange(0, q as int) =~= ev.subrange(0, q as int));
        lemma_open_dirs_prefix(ev2, ev, q as int);
        assert(fs@[q as int]@ == Event::File(cv.last(), offset, size));
        assert forall|i: int| 0 <= i < fs@.len() && (#[trigger] fs@[i]@) is File implies ev0.contains(
            fs@[i]@,
        ) || fs@[i]@ == Event::File(cv.last(), offset, size) by {
            if i != q {
                let j = if i < q || slot.found is Some { i } else { i - 1 };
                assert(ev2[i] == fs@[i]@);
                assert(ev[j] == ev2[i]);
                assert(files_from(ev, ev0));
            }
        }
    }
    Ok(offset)
}

/// The sizes of the inputs of the insertions, in order.
pub open spec fn insert_sizes(ti: Seq<(usize, Seq<Seq<u8>>)>, sizes: Seq<u64>) -> Seq<u64> {
    ti.map_values(|x: (usize, Seq<Seq<u8>>)| sizes[x.0 as int])
}

/// The free ranges once the first `j` payloads are placed, each in the first
/// range where it fits.
pub open spec fn pack_after(free: Seq<(u32, u32)>, sizes: Seq<u64>, j: int) -> Seq<(u32, u32)>
    decreases j,
{
    if j <= 0 {
        free
    } else {
        let f = pack_after(free, sizes, j - 1);
        take_space(f, first_fit_from(f, sizes[j - 1] as u32, 0), sizes[j - 1] as u32)
    }
}

/// Whether the table of `kept` does not fit between `fst_offset` and the
/// first payload.
pub open spec fn toc_blocked(kept: Seq<Event>, fst_offset: int) -> bool {
    match toc_spec(kept) {
        None => true,
        Some(t) => fst_offset + t.len() > ROM_SIZE || exists|i: int|
            0 <= i < kept.len() && (#[trigger] kept[i] matches Event::File(_, o, _) && o < fst_offset + t.len()),
    }
}

/// While insertions are made: each file is kept or inserted by one of the
/// first `j` insertions, whose payloads are `pay`.
pub open spec fn files_ok(
    fs: Seq<Event>,
    kept: Seq<Event>,
    ti: Seq<(usize, Seq<Seq<u8>>)>,
    sz: Seq<u64>,
    pay: Seq<(usize, u32)>,
    j: int,
) -> bool {
    forall|i: int|
        0 <= i < fs.len() && (#[trigger] fs[i]) is File ==> kept.contains(fs[i]) || exists|i2: int|
            0 <= i2 < j && fs[i] == Event::File(ti[i2].1.last(), pay[i2].1, sz[i2] as u32)
}

/// While insertions are made: each directory is kept or lies on the path of
/// one of the first `j` insertions.
pub open spec fn dirs_made_ok(fs: Seq<Event>, kept: Seq<Event>, ti: Seq<(usize, Seq<Seq<u8>>)>, j: int) -> bool {
    forall|i: int|
        0 <= i < fs.len() && (#[trigger] fs[i]) is PushDir ==> kept.contains(fs[i]) || exists|i2: int, m: int|
            0 <= i2 < j && 0 <= m < ti[i2].1.len() - 1 && fs[i] == Event::PushDir(ti[i2].1[m])
}

/// Whether some of the first `j` insertions puts a file named `n`.
pub open spec fn inserted_name(ti: Seq<(usize, Seq<Seq<u8>>)>, j: int, n: Seq<u8>) -> bool {
    exists|i2: int| 0 <= i2 < j && (#[trigger] ti[i2]).1.last() == n
}

/// While insertions are made: every kept event stays, but a file that an
/// insertion of the same name may have replaced.
pub open spec fn kept_ok(fs: Seq<Event>, kept: Seq<Event>, ti: Seq<(usize, Seq<Seq<u8>>)>, j: int) -> bool {
    forall|i: int|
        0 <= i < kept.len() && !(kept[i] is File && inserted_name(ti, j, event_name(kept[i])->0))
            ==> fs.contains(#[trigger] kept[i])
}

/// While insertions are made: the file of each of the first `j` insertions
/// stands, unless a later one has the same name.
pub open spec fn present_ok(
    fs: Seq<Event>,
    ti: Seq<(usize, Seq<Seq<u8>>)>,
    sz: Seq<u64>,
    pay: Seq<(usize, u32)>,
    j: int,
) -> bool {
    forall|i: int|
        0 <= i < j && (forall|i2: int| i < i2 < j ==> (#[trigger] ti[i2]).1.last() != ti[i].1.last())
            ==> fs.contains(Event::File((#[trigger] ti[i]).1.last(), pay[i].1, sz[i] as u32))
}

/// One insertion keeps the bookkeeping of the insertions.
proof fn lemma_insert_step(
    before: Seq<Event>,
    after: Seq<Event>,
    kept: Seq<Event>,
    ti: Seq<(usize, Seq<Seq<u8>>)>,
    sz: Seq<u64>,
    pay: Seq<(usize, u32)>,
    j: int,
    off: u32,
)
    requires
        0 <= j < ti.len(),
        pay.len() == j,
        ti[j].1.len() > 0,
        files_ok(before, kept, ti, sz, pay, j),
        dirs_made_ok(before, kept, ti, j),
        kept_ok(before, kept, ti, j),
        present_ok(before, ti, sz, pay, j),
        forall|i: int|
            0 <= i < after.len() && (#[trigger] after[i]) is File ==> before.contains(after[i])
                || after[i] == Event::File(ti[j].1.last(), off, sz[j] as u32),
        dirs_from(after, before, ti[j].1.subrange(0, ti[j].1.len() - 1)),
        forall|i: int|
            0 <= i < before.len() && !(before[i] is File && event_name(before[i]) == Some(ti[j].1.last()))
                ==> after.contains(#[trigger] before[i]),
        exists|q: int| 0 <= q < after.len() && after[q] == Event::File(ti[j].1.last(), off, sz[j] as u32),
    ensures
        files_ok(after, kept, ti, sz, pay.push((ti[j].0, off)), j + 1),
        dirs_made_ok(after, kept, ti, j + 1),
        kept_ok(after, kept, ti, j + 1),
        present_ok(after, ti, sz, pay.push((ti[j].0, off)), j + 1),
{
    let pay2 = pay.push((ti[j].0, off));
    let fe = Event::File(ti[j].1.last(), off, sz[j] as u32);
    assert forall|i: int| 0 <= i < after.len() && (#[trigger] after[i]) is File implies kept.contains(after[i])
        || exists|i2: int| 0 <= i2 < j + 1 && after[i] == Event::File(ti[i2].1.last(), pay2[i2].1, sz[i2] as u32) by {
        if after[i] == fe {
            assert(pay2[j].1 == off);
        } else {
            let b = choose|b: int| 0 <= b < before.len() && before[b] == after[i];
            if !kept.contains(after[i]) {
                let i2 = choose|i2: int| 0 <= i2 < j && before[b] == Event::File(ti[i2].1.last(), pay[i2].1, sz[i2] as u32);
                assert(pay2[i2] == pay[i2]);
            }
        }
    }
    assert forall|i: int| 0 <= i < after.len() && (#[trigger] after[i]) is PushDir implies kept.contains(after[i])
        || exists|i2: int, m: int| 0 <= i2 < j + 1 && 0 <= m < ti[i2].1.len() - 1 && after[i] == Event::PushDir(ti[i2].1[m]) by {
        let d = ti[j].1.subrange(0, ti[j].1.len() - 1);
        if before.contains(after[i]) {
            let b = choose|b: int| 0 <= b < before.len() && before[b] == after[i];
            assert(before[b] is PushDir);
        } else {
            let m = choose|m: int| 0 <= m < d.len() && after[i] == Event::PushDir(d[m]);
            assert(d[m] == ti[j].1[m]);
        }
    }
    assert forall|i: int|
        0 <= i < kept.len() && !(kept[i] is File && inserted_name(ti, j + 1, event_name(kept[i])->0))
            implies after.contains(#[trigger] kept[i]) by {
        if kept[i] is File && inserted_name(ti, j, event_name(kept[i])->0) {
            let i2 = choose|i2: int| 0 <= i2 < j && (#[trigger] ti[i2]).1.last() == event_name(kept[i])->0;
            assert(inserted_name(ti, j + 1, event_name(kept[i])->0));
        }
        let b = choose|b: int| 0 <= b < before.len() && before[b] == kept[i];
        if kept[i] is File && event_name(kept[i]) == Some(ti[j].1.last()) {
            assert(inserted_name(ti, j + 1, event_name(kept[i])->0));
        }
        assert(after.contains(before[b]));
    }
    assert forall|i: int|
        0 <= i < j + 1 && (forall|i2: int| i < i2 < j + 1 ==> (#[trigger] ti[i2]).1.last() != ti[i].1.last())
            implies after.contains(Event::File((#[trigger] ti[i]).1.last(), pay2[i].1, sz[i] as u32)) by {
        if i == j {
            assert(pay2[j].1 == off);
        } else {
            assert(pay2[i] == pay[i]);
            assert(ti[j].1.last() != ti[i].1.last());
            let e = Event::File(ti[i].1.last(), pay[i].1, sz[i] as u32);
            assert(before.contains(e));
            let b = choose|b: int| 0 <= b < before.len() && before[b] == e;
            assert(after.contains(before[b]));
        }
    }
}

/// The lowest payload offset among the files of `fs`, or `ROM_SIZE` where
/// there is none below it.
fn first_payload(fs: &Vec<FsEntry>) -> (r: u32)
    ensures
        r <= ROM_SIZE,
        forall|i: int|
            0 <= i < fs@.len() ==> (#[trigger] fs@[i]@ matches Event::File(_, o, _) ==> r <= o),
        r == ROM_SIZE || exists|i: int| 0 <= i < fs@.len() && (#[trigger] fs@[i]@ matches Event::File(_, o, _) && o == r),
{
    let mut r: u32 = ROM_SIZE;
    let mut k: usize = 0;
    while k < fs.len()
        invariant
            k <= fs@.len(),
            r <= ROM_SIZE,
            forall|i: int| 0 <= i < k ==> (#[trigger] fs@[i]@ matches Event::File(_, o, _) ==> r <= o),
            r == ROM_SIZE || exists|i: int| 0 <= i < fs@.len() && (#[trigger] fs@[i]@ matches Event::File(_, o, _) && o == r),
        decreases fs@.len() - k,
    {
        if let FsEntry::File { offset, .. } = &fs[k] {
            if *offset < r {
                r = *offset;
                assert(fs@[k as int]@ matches Event::File(_, o, _) && o == r);
            }
        }
        k = k + 1;
    }
    r
}

/// Whether the payloads placed lie apart from each other and from the
/// extents in `exts`, aligned and within the image, above `floor`.
pub open spec fn placed_ok(placed: Seq<Extent>, exts: Seq<Extent>, floor: int) -> bool {
    &&& forall|i: int|
        0 <= i < placed.len() ==> {
            &&& (#[trigger] placed[i]).0 as int % FILE_ALIGN as int == 0
            &&& floor <= placed[i].0
            &&& ext_end(placed[i]) <= ROM_SIZE
        }
    &&& forall|i: int, j: int|
        0 <= i < placed.len() && 0 <= j < exts.len() ==> disjoint(#[trigger] exts[j], #[trigger] placed[i])
    &&& forall|i: int, j: int|
        0 <= i < j < placed.len() ==> disjoint(#[trigger] placed[i], #[trigger] placed[j])
}

/// The last component of the path an operation names.
pub open spec fn last_name(op: IsoOp) -> Seq<u8> {
    components(op_path(op)).last()
}

/// Each file is kept or was placed, after one more file is placed.
proof fn lemma_files_placed(
    new: Seq<FsEntry>,
    old: Seq<FsEntry>,
    kept: Seq<Event>,
    placed: Seq<Extent>,
    x: Extent,
    name: Seq<u8>,
)
    requires
        forall|i: int|
            0 <= i < old.len() ==> (#[trigger] old[i]@ matches Event::File(_, o, s) ==> kept.contains(
                old[i]@,
            ) || placed.contains((o, s))),
        forall|i: int|
            0 <= i < new.len() && (#[trigger] new[i]@) is File ==> events_of(old).contains(new[i]@)
                || new[i]@ == Event::File(name, x.0, x.1),
    ensures
        forall|i: int|
            0 <= i < new.len() ==> (#[trigger] new[i]@ matches Event::File(_, o, s) ==> kept.contains(
                new[i]@,
            ) || placed.push(x).contains((o, s))),
{
    assert forall|i: int| 0 <= i < new.len() implies (#[trigger] new[i]@ matches Event::File(_, o, s)
        ==> kept.contains(new[i]@) || placed.push(x).contains((o, s))) by {
        if let Event::File(_, o, s) = new[i]@ {
            if new[i]@ == Event::File(name, x.0, x.1) {
                assert(placed.push(x)[placed.len() as int] == x);
            } else {
                let j = choose|j: int| 0 <= j < events_of(old).len() && events_of(old)[j] == new[i]@;
                assert(old[j]@ == new[i]@);
                if !kept.contains(new[i]@) {
                    let m = choose|m: int| 0 <= m < placed.len() && placed[m] == (o, s);
                    assert(placed.push(x)[m] == (o, s));
                }
            }
        }
    }
}

/// Where the insertions stand after the first `j`: the payloads placed, the
/// free ranges left, and what the entries hold.
#[verifier::opaque]
pub open spec fn progress(
    ops: Seq<IsoOp>,
    input_sizes: Seq<u64>,
    kept: Seq<Event>,
    ti: Seq<(usize, Seq<Seq<u8>>)>,
    sz: Seq<u64>,
    free0: Seq<(u32, u32)>,
    floor: int,
    used: Seq<Extent>,
    fs: Seq<Event>,
    fsv: Seq<FsEntry>,
    free: Seq<(u32, u32)>,
    pay: Seq<(usize, u32)>,
    placed: Seq<Extent>,
    j: int,
) -> bool {
    &&& 0 <= j <= ti.len()
    &&& fs == events_of(fsv)
    &&& inserts_spec(kept, free0, ti, input_sizes, j) == Ok::<(Seq<Event>, Seq<(u32, u32)>, Seq<u32>), EditFailure>(
        (fs, free, pay.map_values(|p: (usize, u32)| p.1)),
    )
    &&& pay.len() == j
    &&& forall|i: int| 0 <= i < j ==> (#[trigger] pay[i]).0 == ti[i].0
    &&& forall|i: int| 0 <= i < j ==> (#[trigger] ti[i]).1.len() > 0
    &&& balanced(kept) ==> balanced(fs)
    &&& j == 0 ==> fs == kept
    &&& files_ok(fs, kept, ti, sz, pay, j)
    &&& dirs_made_ok(fs, kept, ti, j)
    &&& kept_ok(fs, kept, ti, j)
    &&& present_ok(fs, ti, sz, pay, j)
    &&& free == pack_after(free0, sz, j)
    &&& forall|i: int| 0 <= i < j ==> #[trigger] sz[i] <= u32::MAX && first_fit_from(pack_after(free0, sz, i), sz[i] as u32, 0) >= 0
    &&& free_ok(free, used + placed, floor)
    &&& placed_ok(placed, used, floor)
    &&& placed == pay.map_values(|p: (usize, u32)| (p.1, input_sizes[p.0 as int] as u32))
    &&& forall|i: int|
        0 <= i < fsv.len() ==> (#[trigger] fsv[i]@ matches Event::File(_, o, s) ==> kept.contains(fsv[i]@)
            || placed.contains((o, s)))
    &&& forall|i: int|
        0 <= i < pay.len() ==> {
            let k = (#[trigger] pay[i]).0;
            &&& k < ops.len()
            &&& is_table_insert(ops[k as int])
            &&& input_sizes[k as int] <= u32::MAX
        }
}

/// Makes insertion `j`, of operation `k`, whose path is `path` and whose
/// input has `size` bytes.
fn insert_step(
    fs: &mut Vec<FsEntry>,
    free: &mut Vec<(u32, u32)>,
    payloads: &mut Vec<(usize, u32)>,
    path: &str,
    k: usize,
    size: u64,
    Ghost(ops): Ghost<Seq<IsoOp>>,
    Ghost(input_sizes): Ghost<Seq<u64>>,
    Ghost(kept): Ghost<Seq<Event>>,
    Ghost(ti): Ghost<Seq<(usize, Seq<Seq<u8>>)>>,
    Ghost(sz): Ghost<Seq<u64>>,
    Ghost(free0): Ghost<Seq<(u32, u32)>>,
    Ghost(floor): Ghost<int>,
    Ghost(used): Ghost<Seq<Extent>>,
    Ghost(placed): Ghost<Seq<Extent>>,
    Ghost(j): Ghost<int>,
) -> (r: Result<(), OperateISOError>)
    requires
        progress(ops, input_sizes, kept, ti, sz, free0, floor, used, events_of(old(fs)@), old(fs)@, old(free)@, old(payloads)@, placed, j),
        0 <= j < ti.len(),
        ti[j].0 == k,
        k < ops.len(),
        is_table_insert(ops[k as int]),
        components(path.spec_bytes()) == ti[j].1,
        size == sz[j],
        sz.len() == ti.len(),
        input_sizes.len() == ops.len(),
        sz[j] == input_sizes[k as int],
    ensures
        r is Ok ==> progress(
            ops,
            input_sizes,
            kept,
            ti,
            sz,
            free0,
            floor,
            used,
            events_of(final(fs)@),
            final(fs)@,
            final(free)@,
            final(payloads)@,
            placed.push((final(payloads)@.last().1, sz[j] as u32)),
            j + 1,
        ) && final(payloads)@.len() == j + 1,
        r is Err ==> inserts_spec(kept, free0, ti, input_sizes, j + 1) is Err && kind_matches(
            r->Err_0,
            inserts_spec(kept, free0, ti, input_sizes, j + 1)->Err_0,
        ),
        r matches Err(OperateISOError::InvalidISO) ==> !balanced(kept),
        r is Err ==> (r matches Err(OperateISOError::InvalidISO)) || (r matches Err(
            OperateISOError::InvalidISOPath(_),
        )) || (r matches Err(OperateISOError::FileInsertionReplicatesFolder(_))) || (r matches Err(
            OperateISOError::ISOTooLarge,
        )),
{
    proof {
        reveal(progress);
    }
    let ghost all = used + placed;
    let ghost fs0 = fs@;
    let ghost free_j = free@;
    let res = insert_one(fs, free, path, size, Ghost(all), Ghost(floor));
    let off = match res {
        Ok(o) => o,
        Err(e) => {
            return Err(e);
        },
    };
    let ghost x = (off, sz[j] as u32);
    proof {
        let q = choose|q: int|
            0 <= q < fs@.len() && #[trigger] fs@[q]@ == Event::File(
                components(path.spec_bytes()).last(),
                off,
                size as u32,
            ) && open_dirs(events_of(fs@), q).push(components(path.spec_bytes()).last())
                == components(path.spec_bytes());
        assert(events_of(fs@)[q] == fs@[q]@);
        assert forall|i: int| 0 <= i < events_of(fs@).len() && (#[trigger] events_of(fs@)[i]) is File implies events_of(fs0).contains(events_of(fs@)[i])
            || events_of(fs@)[i] == Event::File(ti[j].1.last(), off, sz[j] as u32) by {
            assert(events_of(fs@)[i] == fs@[i]@);
        }
        assert forall|i: int|
            0 <= i < events_of(fs0).len() && !(events_of(fs0)[i] is File && event_name(events_of(fs0)[i]) == Some(ti[j].1.last()))
                implies events_of(fs@).contains(#[trigger] events_of(fs0)[i]) by {
            assert(events_of(fs0)[i] == fs0[i]@);
        }
        lemma_insert_step(events_of(fs0), events_of(fs@), kept, ti, sz, old(payloads)@, j, off);
        assert(free@ == pack_after(free0, sz, j + 1));
        assert(all.push(x) =~= used + placed.push(x));
        assert forall|i: int, jj: int|
            0 <= i < placed.push(x).len() && 0 <= jj < used.len() implies disjoint(
            #[trigger] used[jj],
            #[trigger] placed.push(x)[i],
        ) by {
            if i == placed.len() {
                assert(all[jj] == used[jj]);
            }
        }
        assert forall|i: int, i2: int| 0 <= i < i2 < placed.push(x).len() implies disjoint(
            #[trigger] placed.push(x)[i],
            #[trigger] placed.push(x)[i2],
        ) by {
            if i2 == placed.len() {
                assert(all[used.len() + i] == placed[i]);
            }
        }
    }
    let ghost fs1 = fs@;
    payloads.push((k, off));
    proof {
        lemma_files_placed(fs@, fs0, kept, placed, x, components(path.spec_bytes()).last());
        assert(placed.push(x) =~= payloads@.map_values(|p: (usize, u32)| (p.1, input_sizes[p.0 as int] as u32)));
        assert forall|i: int| 0 <= i < j + 1 implies #[trigger] sz[i] <= u32::MAX && first_fit_from(
            pack_after(free0, sz, i),
            sz[i] as u32,
            0,
        ) >= 0 by {
            if i == j {
                assert(pack_after(free0, sz, j) == free_j);
            }
        }
        assert forall|i: int| 0 <= i < j + 1 implies (#[trigger] payloads@[i]).0 == ti[i].0 by {
            if i < j {
                assert(payloads@[i] == old(payloads)@[i]);
            }
        }
        assert forall|i: int| 0 <= i < payloads@.len() implies {
            let kk = (#[trigger] payloads@[i]).0;
            &&& kk < ops.len()
            &&& is_table_insert(ops[kk as int])
            &&& input_sizes[kk as int] <= u32::MAX
        } by {
            if i < j {
                assert(payloads@[i] == old(payloads)@[i]);
            }
        }
        assert(payloads@.map_values(|p: (usize, u32)| p.1) =~= old(payloads)@.map_values(|p: (usize, u32)| p.1).push(off));
        reveal(progress);
    }
    Ok(())
}

/// Decides an in-place edit of an image of `iso_len` bytes whose file string
/// table `fst` lies at `fst_offset` and whose `Start.dol` lies at
/// `dol_offset`; `input_sizes[k]` is the size of the input of operation `k`.
///
/// Its outcome is `plan_spec`'s: each insertion makes its directories where
/// `first_stop` puts them, puts its file there (or in the place of a file of
/// the same name), and takes its payload's room first-fit from the free map
/// of the kept files; it is refused exactly where an insertion is, or where
/// the new table does not fit before the first payload.
///
/// On success the new table is the one written from the new entries, and it
/// ends before the first payload; every kept event stays (but a file replaced
/// by an insertion of the same name), each insertion's file stands unless a
/// later one of the same name replaces it; each inserted payload lies aligned
/// within the image above the old table, apart from every file kept and from
/// every other payload inserted.
#[verifier::rlimit(100)]
pub fn plan_operation(
    ops: &Vec<IsoOp>,
    input_sizes: &Vec<u64>,
    iso_len: u64,
    dol_offset: u32,
    fst_offset: u32,
    fst: &Vec<u8>,
) -> (r: Result<IsoEdit, OperateISOError>)
    requires
        input_sizes@.len() == ops@.len(),
    ensures
        r matches Ok(edit) ==> {
            &&& toc_spec_of(edit.entries@) == Some(edit.toc@)
            &&& next_indices_ok(edit.toc@)
            &&& edit.fst_offset == fst_offset
            &&& edit.dol_offset == dol_offset
            &&& edit.header_info@ == be_bytes(dol_offset) + be_bytes(fst_offset) + be_bytes(
                edit.toc@.len() as u32,
            ) + be_bytes(edit.toc@.len() as u32)
            &&& forall|i: int|
                0 <= i < edit.entries@.len() ==> (#[trigger] edit.entries@[i]@ matches Event::File(
                    _,
                    o,
                    _,
                ) ==> fst_offset + edit.toc@.len() <= o)
            &&& forall|i: int|
                0 <= i < edit.payloads@.len() ==> {
                    let k = (#[trigger] edit.payloads@[i]).0;
                    &&& k < ops@.len()
                    &&& is_table_insert(ops@[k as int])
                    &&& input_sizes@[k as int] <= u32::MAX
                }
            &&& placed_ok(
                edit.payloads@.map_values(|p: (usize, u32)| (p.1, input_sizes@[p.0 as int] as u32)),
                file_extents(retained(fst@, ops@)),
                fst_offset + fst@.len(),
            )
            &&& forall|i: int|
                0 <= i < edit.entries@.len() ==> (#[trigger] edit.entries@[i]@ matches Event::File(
                    _,
                    o,
                    s,
                ) ==> retained(fst@, ops@).contains(edit.entries@[i]@) || edit.payloads@.map_values(
                    |p: (usize, u32)| (p.1, input_sizes@[p.0 as int] as u32),
                ).contains((o, s)))
            &&& edit.iso_hdr == boot_op(ops@, BootFile::IsoHdr)
            &&& edit.apploader == boot_op(ops@, BootFile::AppLoader)
            &&& edit.start_dol == boot_op(ops@, BootFile::StartDol)
            &&& table_inserts(ops@).len() == 0 ==> events_of(edit.entries@) == retained(fst@, ops@)
            &&& edit.payloads@.len() == table_inserts(ops@).len()
            &&& forall|i: int|
                0 <= i < edit.payloads@.len() ==> (#[trigger] edit.payloads@[i]).0 == table_inserts(ops@)[i].0
            &&& kept_ok(events_of(edit.entries@), retained(fst@, ops@), table_inserts(ops@), table_inserts(ops@).len() as int)
            &&& present_ok(
                events_of(edit.entries@),
                table_inserts(ops@),
                insert_sizes(table_inserts(ops@), input_sizes@),
                edit.payloads@,
                table_inserts(ops@).len() as int,
            )
        },
        r matches Err(OperateISOError::InvalidISO) ==> iso_len > ROM_SIZE || fst_offset + fst@.len() > ROM_SIZE
            || parse_spec(fst@, 0) is None || !balanced(retained(fst@, ops@)),
        r is Err ==> (r matches Err(OperateISOError::InvalidISO)) || (r matches Err(
            OperateISOError::InvalidISOPath(_),
        )) || (r matches Err(OperateISOError::FileInsertionReplicatesFolder(_))) || (r matches Err(
            OperateISOError::ISOTooLarge,
        )) || (r matches Err(OperateISOError::TOCTooLarge)),
        iso_len <= ROM_SIZE && fst_offset + fst@.len() <= ROM_SIZE && parse_spec(fst@, 0) is Some ==> exists|
            used: Seq<Extent>,
        |
            #![trigger free_map(used, fst_offset + fst@.len())]
            sorted_by_start(used) && used.to_multiset() == file_extents(retained(fst@, ops@)).to_multiset()
                && edit_matches(
                r,
                plan_spec(
                    retained(fst@, ops@),
                    table_inserts(ops@),
                    input_sizes@,
                    free_map(used, fst_offset + fst@.len()),
                    fst_offset as int,
                ),
            ),
        iso_len > ROM_SIZE ==> r matches Err(OperateISOError::InvalidISO),
        fst_offset + fst@.len() > ROM_SIZE ==> r matches Err(OperateISOError::InvalidISO),
        parse_spec(fst@, 0) is None ==> r matches Err(OperateISOError::InvalidISO),
{
    broadcast use group_to_multiset_ensures;

    if iso_len > ROM_SIZE as u64 || fst_offset > ROM_SIZE || fst.len() as u64 > (ROM_SIZE - fst_offset) as u64 {
        return Err(OperateISOError::InvalidISO);
    }
    let floor = fst_offset + fst.len() as u32;
    let c = classify(ops);
    let parsed = match parse_fst(fst.as_slice(), 0) {
        Some(p) => p,
        None => {
            return Err(OperateISOError::InvalidISO);
        },
    };
    let swept = sweep_deletions(&parsed, c.deletions);
    let mut fs = collapse_empty_dirs(&swept);
    let ghost kept = events_of(fs@);
    assert(kept == retained(fst@, ops@));
    let exts = collect_extents(&fs);
    let used = sort_extents(&exts);
    let mut free = free_space(&used, floor);
    let mut payloads: Vec<(usize, u32)> = Vec::new();
    let ghost placed = Seq::<Extent>::empty();
    let ghost ti = table_inserts(ops@);
    let ghost sz = insert_sizes(ti, input_sizes@);
    let ghost free0 = free@;
    proof {
        assert forall|i: int| 0 <= i < kept.len() && (#[trigger] kept[i]) is File implies kept.contains(kept[i]) by {}
        assert forall|i: int| 0 <= i < kept.len() && (#[trigger] kept[i]) is PushDir implies kept.contains(kept[i]) by {}
        assert forall|i: int|
            0 <= i < kept.len() && !(kept[i] is File && inserted_name(ti, 0, event_name(kept[i])->0))
                implies kept.contains(#[trigger] kept[i]) by {}
        assert forall|i: int| 0 <= i < fs@.len() implies (#[trigger] fs@[i]@ matches Event::File(_, o, s)
            ==> kept.contains(fs@[i]@) || placed.contains((o, s))) by {
            assert(kept[i] == fs@[i]@);
        }
        assert(used@ + placed =~= used@);
        assert(placed =~= payloads@.map_values(|p: (usize, u32)| (p.1, input_sizes@[p.0 as int] as u32)));
        assert(kept == events_of(fs@));
        reveal(progress);
        assert(files_ok(kept, kept, ti, sz, payloads@, 0));
        assert(dirs_made_ok(kept, kept, ti, 0));
        assert(kept_ok(kept, kept, ti, 0));
        assert(pack_after(free0, sz, 0) == free@);
        assert(payloads@.map_values(|p: (usize, u32)| p.1) =~= Seq::<u32>::empty());
    }
    let mut j: usize = 0;
    while j < c.inserts.len()
        invariant
            j <= c.inserts@.len(),
            input_sizes@.len() == ops@.len(),
            iso_len <= ROM_SIZE,
            fst_offset + fst@.len() <= ROM_SIZE,
            parse_spec(fst@, 0) is Some,
            floor == fst_offset + fst@.len(),
            forall|i: int| 0 <= i < c.inserts@.len() ==> (#[trigger] c.inserts@[i]).0 < ops@.len()
                && is_table_insert(ops@[c.inserts@[i].0 as int]) && names_view(c.inserts@[i].1@)
                == components(op_path(ops@[c.inserts@[i].0 as int])),
            ti == table_inserts(ops@),
            ti == inserts_view(c.inserts@),
            sz == insert_sizes(ti, input_sizes@),
            kept == retained(fst@, ops@),
            exts@ == file_extents(kept),
            used@.to_multiset() == exts@.to_multiset(),
            sorted_by_start(used@),
            free0 == free_map(used@, floor as int),
            progress(ops@, input_sizes@, kept, ti, sz, free0, floor as int, used@, events_of(fs@), fs@, free@, payloads@, placed, j as int),
        decreases c.inserts@.len() - j,
    {
        let k = c.inserts[j].0;
        let path = match ops[k] {
            IsoOp::Insert { iso_path, .. } => iso_path,
            IsoOp::Delete { iso_path } => iso_path,
        };
        proof {
            assert(inserts_view(c.inserts@)[j as int] == (k, names_view(c.inserts@[j as int].1@)));
            assert(components(path.spec_bytes()) == ti[j as int].1);
            assert(input_sizes@[k as int] == sz[j as int]);
        }
        match insert_step(&mut fs, &mut free, &mut payloads, path, k, input_sizes[k], Ghost(ops@), Ghost(input_sizes@), Ghost(kept), Ghost(ti), Ghost(sz), Ghost(free0), Ghost(floor as int), Ghost(used@), Ghost(placed), Ghost(j as int)) {
            Ok(()) => {},
            Err(e) => {
                proof {
                    lemma_inserts_fail_on(kept, free0, ti, input_sizes@, j + 1, ti.len() as int);
                    assert(edit_matches(
                        Err::<IsoEdit, OperateISOError>(e),
                        plan_spec(kept, ti, input_sizes@, free_map(used@, floor as int), fst_offset as int),
                    ));
                }
                return Err(e);
            },
        }
        proof {
            placed = placed.push((payloads@.last().1, sz[j as int] as u32));
        }
        j = j + 1;
    }
    proof {
        reveal(progress);
    }
    proof {
        assert forall|i: int, jj: int|
            0 <= i < placed.len() && 0 <= jj < file_extents(kept).len() implies disjoint(
            #[trigger] file_extents(kept)[jj],
            #[trigger] placed[i],
        ) by {
            let e = file_extents(kept)[jj];
            assert(exts@.contains(e));
            assert(used@.to_multiset().count(e) > 0);
            assert(used@.contains(e));
            let u = choose|u: int| 0 <= u < used@.len() && used@[u] == e;
            assert(disjoint(used@[u], placed[i]));
        }
    }
    let ghost planned = plan_spec(kept, ti, input_sizes@, free_map(used@, floor as int), fst_offset as int);
    assert(inserts_spec(kept, free0, ti, input_sizes@, ti.len() as int) == Ok::<(Seq<Event>, Seq<(u32, u32)>, Seq<u32>), EditFailure>(
        (events_of(fs@), free@, payloads@.map_values(|p: (usize, u32)| p.1)),
    ));
    let toc = match write_toc(fs.as_slice()) {
        Some(t) => t,
        None => {
            assert(toc_blocked(events_of(fs@), fst_offset as int));
            assert(edit_matches(Err::<IsoEdit, OperateISOError>(OperateISOError::TOCTooLarge), planned));
            return Err(OperateISOError::TOCTooLarge);
        },
    };
    assert(payloads@.len() == ti.len());
    let data_start = first_payload(&fs);
    if data_start < fst_offset || toc.len() as u64 > (data_start - fst_offset) as u64 {
        proof {
            if ti.len() == 0 {
                assert(toc_spec(kept) == Some(toc@));
                if data_start < ROM_SIZE {
                    let i = choose|i: int| 0 <= i < fs@.len() && (#[trigger] fs@[i]@ matches Event::File(_, o, _) && o == data_start);
                    assert(kept[i] == fs@[i]@);
                }
            }
            if data_start < ROM_SIZE {
                let i = choose|i: int| 0 <= i < fs@.len() && (#[trigger] fs@[i]@ matches Event::File(_, o, _) && o == data_start);
                assert(events_of(fs@)[i] == fs@[i]@);
            }
            assert(toc_blocked(events_of(fs@), fst_offset as int));
            assert(edit_matches(Err::<IsoEdit, OperateISOError>(OperateISOError::TOCTooLarge), planned));
        }
        return Err(OperateISOError::TOCTooLarge);
    }
    proof {
        assert forall|i: int| 0 <= i < events_of(fs@).len() implies !(#[trigger] events_of(fs@)[i] matches Event::File(_, o, _)
            && o < fst_offset + toc@.len()) by {
            assert(events_of(fs@)[i] == fs@[i]@);
        }
        assert(!toc_blocked(events_of(fs@), fst_offset as int));
    }
    let size = toc.len() as u32;
    let mut header_info: Vec<u8> = Vec::new();
    push_be32(&mut header_info, dol_offset);
    push_be32(&mut header_info, fst_offset);
    push_be32(&mut header_info, size);
    push_be32(&mut header_info, size);
    assert(header_info@ =~= be_bytes(dol_offset) + be_bytes(fst_offset) + be_bytes(size) + be_bytes(size));
    let edit = IsoEdit {
        entries: fs,
        payloads,
        toc,
        fst_offset,
        dol_offset,
        header_info,
        iso_hdr: c.iso_hdr,
        apploader: c.apploader,
        start_dol: c.start_dol,
    };
    assert(edit_matches(Ok::<IsoEdit, OperateISOError>(edit), planned));
    Ok(edit)
}

/// The table written from a list of entries.
pub open spec fn toc_spec_of(fs: Seq<FsEntry>) -> Option<Seq<u8>> {
    crate::fst::toc_spec(events_of(fs))
}

} // verus!
