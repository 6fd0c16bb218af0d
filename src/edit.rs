//! Planning an in-place edit of an image: which files go, where new ones go,
//! and the table that describes the result.

use crate::fst::{copy_bytes, copy_entry, events_of, Event, FsEntry};
use crate::errors::OperateISOError;
use crate::path::{bytes_eq, components, lemma_name_lt_irrefl, lemma_name_lt_trans, name_lt, name_precedes, split_path};
use vstd::prelude::*;
use vstd::string::StringSliceAdditionalSpecFns;

verus! {

/// The components of each path, as byte strings.
pub open spec fn paths_view(p: Seq<Vec<Vec<u8>>>) -> Seq<Seq<Seq<u8>>> {
    p.map_values(|c: Vec<Vec<u8>>| names_view(c@))
}

/// The byte strings of a list of names.
pub open spec fn names_view(c: Seq<Vec<u8>>) -> Seq<Seq<u8>> {
    c.map_values(|n: Vec<u8>| n@)
}

// ---------------------------------------------------------------------------
// deletions

/// The position of the first path in `s` from `from` on that equals `x`, or -1.
pub open spec fn find_first(s: Seq<Seq<Seq<u8>>>, x: Seq<Seq<u8>>, from: int) -> int
    decreases s.len() - from,
{
    if from < 0 || from >= s.len() {
        -1
    } else if s[from] == x {
        from
    } else {
        find_first(s, x, from + 1)
    }
}

/// The walk that drops deleted files: what is kept, the directories the walk
/// is in, and the deletions not yet used.
pub struct SweepState {
    pub kept: Seq<Event>,
    pub dirs: Seq<Seq<u8>>,
    pub pending: Seq<Seq<Seq<u8>>>,
}

/// One step of the walk. A file whose path is pending is dropped, and that
/// deletion used up.
pub open spec fn sweep_step(st: SweepState, e: Event) -> SweepState {
    match e {
        Event::PushDir(name) => SweepState { kept: st.kept.push(e), dirs: st.dirs.push(name), ..st },
        Event::PopDir => SweepState {
            kept: st.kept.push(e),
            dirs: if st.dirs.len() > 0 {
                st.dirs.drop_last()
            } else {
                st.dirs
            },
            ..st
        },
        Event::File(name, _, _) => {
            let d = find_first(st.pending, st.dirs.push(name), 0);
            if d >= 0 {
                SweepState { pending: st.pending.remove(d), ..st }
            } else {
                SweepState { kept: st.kept.push(e), ..st }
            }
        },
    }
}

/// The walk after the first `k` events.
pub open spec fn sweep_upto(ev: Seq<Event>, pending: Seq<Seq<Seq<u8>>>, k: int) -> SweepState
    decreases k,
{
    if k <= 0 {
        SweepState { kept: Seq::empty(), dirs: Seq::empty(), pending }
    } else {
        sweep_step(sweep_upto(ev, pending, k - 1), ev[k - 1])
    }
}

/// The events left once the files at the paths in `deletions` are dropped.
pub open spec fn sweep_spec(ev: Seq<Event>, deletions: Seq<Seq<Seq<u8>>>) -> Seq<Event> {
    sweep_upto(ev, deletions, ev.len() as int).kept
}

/// Whether the path made of `dirs` then `name` is `target`.
fn path_is(dirs: &Vec<Vec<u8>>, name: &Vec<u8>, target: &Vec<Vec<u8>>) -> (r: bool)
    ensures
        r == (names_view(dirs@).push(name@) == names_view(target@)),
{
    if target.len() == 0 || target.len() - 1 != dirs.len() {
        assert(names_view(dirs@).push(name@).len() != names_view(target@).len());
        return false;
    }
    let mut k: usize = 0;
    while k < dirs.len()
        invariant
            k <= dirs@.len(),
            target@.len() == dirs@.len() + 1,
            forall|j: int| 0 <= j < k ==> #[trigger] dirs@[j]@ == target@[j]@,
        decreases dirs@.len() - k,
    {
        if !bytes_eq(dirs[k].as_slice(), target[k].as_slice()) {
            assert(names_view(dirs@).push(name@)[k as int] != names_view(target@)[k as int]);
            return false;
        }
        k = k + 1;
    }
    if !bytes_eq(name.as_slice(), target[k].as_slice()) {
        assert(names_view(dirs@).push(name@)[k as int] != names_view(target@)[k as int]);
        return false;
    }
    assert(names_view(dirs@).push(name@) =~= names_view(target@));
    true
}

/// The first pending deletion of the path made of `dirs` then `name`.
fn find_pending(pending: &Vec<Vec<Vec<u8>>>, dirs: &Vec<Vec<u8>>, name: &Vec<u8>) -> (r: Option<
    usize,
>)
    ensures
        r matches Some(d) ==> d < pending@.len() && d as int == find_first(
            paths_view(pending@),
            names_view(dirs@).push(name@),
            0,
        ),
        r is None ==> find_first(paths_view(pending@), names_view(dirs@).push(name@), 0) == -1,
{
    let ghost x = names_view(dirs@).push(name@);
    let mut d: usize = 0;
    while d < pending.len()
        invariant
            d <= pending@.len(),
            x == names_view(dirs@).push(name@),
            find_first(paths_view(pending@), x, 0) == find_first(paths_view(pending@), x, d as int),
        decreases pending@.len() - d,
    {
        assert(paths_view(pending@)[d as int] == names_view(pending@[d as int]@));
        if path_is(dirs, name, &pending[d]) {
            return Some(d);
        }
        d = d + 1;
    }
    None
}

/// Drops the files at the paths in `deletions`, each deletion used once.
pub fn sweep_deletions(fs: &Vec<FsEntry>, deletions: Vec<Vec<Vec<u8>>>) -> (r: Vec<FsEntry>)
    ensures
        events_of(r@) == sweep_spec(events_of(fs@), paths_view(deletions@)),
{
    let ghost ev = events_of(fs@);
    let ghost del = paths_view(deletions@);
    let mut kept: Vec<FsEntry> = Vec::new();
    let mut dirs: Vec<Vec<u8>> = Vec::new();
    let mut pending = deletions;
    let mut k: usize = 0;
    assert(events_of(kept@) =~= Seq::<Event>::empty());
    assert(names_view(dirs@) =~= Seq::<Seq<u8>>::empty());
    while k < fs.len()
        invariant
            k <= fs@.len(),
            ev == events_of(fs@),
            sweep_upto(ev, del, k as int) == (SweepState {
                kept: events_of(kept@),
                dirs: names_view(dirs@),
                pending: paths_view(pending@),
            }),
        decreases fs@.len() - k,
    {
        let ghost k0 = events_of(kept@);
        let ghost d0 = names_view(dirs@);
        let ghost pend0 = paths_view(pending@);
        assert(ev[k as int] == fs@[k as int]@);
        match &fs[k] {
            FsEntry::PushDir { name } => {
                kept.push(copy_entry(&fs[k]));
                dirs.push(copy_bytes(name.as_slice()));
                assert(events_of(kept@) =~= k0.push(ev[k as int]));
                assert(names_view(dirs@) =~= d0.push(name@));
            },
            FsEntry::PopDir => {
                kept.push(FsEntry::PopDir);
                if dirs.len() > 0 {
                    dirs.pop();
                    assert(names_view(dirs@) =~= d0.drop_last());
                }
                assert(events_of(kept@) =~= k0.push(ev[k as int]));
            },
            FsEntry::File { name, .. } => {
                match find_pending(&pending, &dirs, name) {
                    Some(d) => {
                        pending.remove(d);
                        assert(paths_view(pending@) =~= pend0.remove(d as int));
                    },
                    None => {
                        kept.push(copy_entry(&fs[k]));
                        assert(events_of(kept@) =~= k0.push(ev[k as int]));
                    },
                }
            },
        }
        k = k + 1;
    }
    kept
}

// ---------------------------------------------------------------------------
// empty directories

/// Adds one event to those kept, dropping a directory that closes empty.
pub open spec fn collapse_step(out: Seq<Event>, e: Event) -> Seq<Event> {
    match e {
        Event::PopDir => if out.len() > 0 && out.last() is PushDir {
            out.drop_last()
        } else {
            out.push(e)
        },
        _ => out.push(e),
    }
}

/// The first `k` events with empty directories dropped.
pub open spec fn collapse_upto(ev: Seq<Event>, k: int) -> Seq<Event>
    decreases k,
{
    if k <= 0 {
        Seq::empty()
    } else {
        collapse_step(collapse_upto(ev, k - 1), ev[k - 1])
    }
}

/// Drops every directory that holds no file, however deep its empty
/// subdirectories go.
pub fn collapse_empty_dirs(fs: &Vec<FsEntry>) -> (r: Vec<FsEntry>)
    ensures
        events_of(r@) == collapse_upto(events_of(fs@), fs@.len() as int),
{
    let ghost ev = events_of(fs@);
    let mut out: Vec<FsEntry> = Vec::new();
    let mut k: usize = 0;
    while k < fs.len()
        invariant
            k <= fs@.len(),
            ev == events_of(fs@),
            collapse_upto(ev, k as int) == events_of(out@),
        decreases fs@.len() - k,
    {
        let ghost o0 = events_of(out@);
        assert(ev[k as int] == fs@[k as int]@);
        let closes_empty = match &fs[k] {
            FsEntry::PopDir => out.len() > 0 && match &out[out.len() - 1] {
                FsEntry::PushDir { .. } => true,
                _ => false,
            },
            _ => false,
        };
        if closes_empty {
            out.pop();
            assert(events_of(out@) =~= o0.drop_last());
        } else {
            out.push(copy_entry(&fs[k]));
            assert(events_of(out@) =~= o0.push(ev[k as int]));
        }
        k = k + 1;
    }
    out
}

// ---------------------------------------------------------------------------
// directories

/// How an event changes the depth of the walk.
pub open spec fn delta(e: Event) -> int {
    match e {
        Event::PushDir(_) => 1,
        Event::PopDir => -1,
        _ => 0,
    }
}

/// The depth of the walk at `j`, counted from `c`.
pub open spec fn depth(ev: Seq<Event>, c: int, j: int) -> int
    decreases j - c,
{
    if j <= c {
        0
    } else {
        depth(ev, c, j - 1) + delta(ev[j - 1])
    }
}

/// Whether every `PopDir` closes an open directory and every directory
/// closes.
pub open spec fn balanced(ev: Seq<Event>) -> bool {
    &&& forall|j: int| 0 <= j <= ev.len() ==> depth(ev, 0, j) >= 0
    &&& depth(ev, 0, ev.len() as int) == 0
}

/// The depth of a walk adds up over consecutive stretches.
pub proof fn lemma_depth_split(ev: Seq<Event>, a: int, b: int, c: int)
    requires
        0 <= a <= b <= c <= ev.len(),
    ensures
        depth(ev, a, c) == depth(ev, a, b) + depth(ev, b, c),
    decreases c - b,
{
    if c > b {
        lemma_depth_split(ev, a, b, c - 1);
    }
}

/// The depths of a walk with an empty directory added at `pos`.
pub proof fn lemma_depth_pair(ev: Seq<Event>, pos: int, name: Seq<u8>, j: int)
    requires
        0 <= pos <= ev.len(),
        0 <= j <= ev.len() + 2,
    ensures
        ({
            let ev2 = ev.insert(pos, Event::PushDir(name)).insert(pos + 1, Event::PopDir);
            &&& j <= pos ==> depth(ev2, 0, j) == depth(ev, 0, j)
            &&& j == pos + 1 ==> depth(ev2, 0, j) == depth(ev, 0, pos) + 1
            &&& j >= pos + 2 ==> depth(ev2, 0, j) == depth(ev, 0, j - 2)
        }),
    decreases j,
{
    let ev2 = ev.insert(pos, Event::PushDir(name)).insert(pos + 1, Event::PopDir);
    if j > 0 {
        lemma_depth_pair(ev, pos, name, j - 1);
        if j - 1 < pos {
            assert(ev2[j - 1] == ev[j - 1]);
        } else if j - 1 > pos + 1 {
            assert(ev2[j - 1] == ev[j - 3]);
        }
    }
}

/// Adding an empty directory keeps a walk balanced.
pub proof fn lemma_pair_balanced(ev: Seq<Event>, pos: int, name: Seq<u8>)
    requires
        0 <= pos <= ev.len(),
        balanced(ev),
    ensures
        balanced(ev.insert(pos, Event::PushDir(name)).insert(pos + 1, Event::PopDir)),
{
    let ev2 = ev.insert(pos, Event::PushDir(name)).insert(pos + 1, Event::PopDir);
    assert forall|j: int| 0 <= j <= ev2.len() implies depth(ev2, 0, j) >= 0 by {
        lemma_depth_pair(ev, pos, name, j);
    }
    lemma_depth_pair(ev, pos, name, ev2.len() as int);
}

/// Whether position `q` lies in the directory whose contents start at `c`,
/// at its top level: the walk from `c` reaches `q` at depth 0 without
/// leaving the directory.
pub open spec fn at_level(ev: Seq<Event>, c: int, q: int) -> bool {
    &&& c <= q <= ev.len()
    &&& depth(ev, c, q) == 0
    &&& forall|r: int| c <= r <= q ==> depth(ev, c, r) >= 0
}

/// The name of a directory or file event.
pub open spec fn event_name(e: Event) -> Option<Seq<u8>> {
    match e {
        Event::PushDir(name) => Some(name),
        Event::File(name, _, _) => Some(name),
        Event::PopDir => None,
    }
}

/// Whether `q` holds a child of the directory whose contents start at `c`.
pub open spec fn is_child(ev: Seq<Event>, c: int, q: int) -> bool {
    at_level(ev, c, q) && q < ev.len() && !(ev[q] is PopDir)
}

/// The names of the directories open at position `k`, outermost first.
pub open spec fn open_dirs(ev: Seq<Event>, k: int) -> Seq<Seq<u8>>
    decreases k,
{
    if k <= 0 {
        Seq::empty()
    } else {
        let d = open_dirs(ev, k - 1);
        match ev[k - 1] {
            Event::PushDir(name) => d.push(name),
            Event::PopDir => if d.len() > 0 {
                d.drop_last()
            } else {
                d
            },
            _ => d,
        }
    }
}

/// The directories open at `k` depend on what comes before `k` alone.
pub proof fn lemma_open_dirs_prefix(a: Seq<Event>, b: Seq<Event>, k: int)
    requires
        0 <= k <= a.len(),
        k <= b.len(),
        a.subrange(0, k) == b.subrange(0, k),
    ensures
        open_dirs(a, k) == open_dirs(b, k),
    decreases k,
{
    if k > 0 {
        assert(a.subrange(0, k - 1) =~= a.subrange(0, k).subrange(0, k - 1));
        assert(b.subrange(0, k - 1) =~= b.subrange(0, k).subrange(0, k - 1));
        assert(a[k - 1] == a.subrange(0, k)[k - 1]);
        assert(b[k - 1] == b.subrange(0, k)[k - 1]);
        lemma_open_dirs_prefix(a, b, k - 1);
    }
}

/// Within a directory the open directories are those at its start and as
/// many more as the depth.
pub proof fn lemma_open_dirs_depth(ev: Seq<Event>, c: int, r: int)
    requires
        0 <= c <= r <= ev.len(),
        forall|j: int| c <= j <= r ==> depth(ev, c, j) >= 0,
    ensures
        open_dirs(ev, r).len() == open_dirs(ev, c).len() + depth(ev, c, r),
        open_dirs(ev, r).subrange(0, open_dirs(ev, c).len() as int) == open_dirs(ev, c),
    decreases r - c,
{
    if r > c {
        lemma_open_dirs_depth(ev, c, r - 1);
        let d = open_dirs(ev, r - 1);
        let n = open_dirs(ev, c).len() as int;
        assert(d.subrange(0, n) == open_dirs(ev, c));
        match ev[r - 1] {
            Event::PushDir(name) => {
                assert(d.push(name).subrange(0, n) =~= d.subrange(0, n));
            },
            Event::PopDir => {
                assert(depth(ev, c, r) >= 0);
                assert(d.drop_last().subrange(0, n) =~= d.subrange(0, n));
            },
            _ => {},
        }
    } else {
        assert(open_dirs(ev, c).subrange(0, open_dirs(ev, c).len() as int) =~= open_dirs(ev, c));
    }
}

/// Where a name stands among the children of the directory whose contents
/// start at `c`: the child with that very name, if there is one, and where a
/// new child of that name goes to keep the children in order.
pub struct Slot {
    pub found: Option<usize>,
    pub pos: usize,
}

/// Whether `slot` is where `name` stands among the children at `c`.
pub open spec fn slot_ok(ev: Seq<Event>, c: int, name: Seq<u8>, found: Option<usize>, pos: int) -> bool {
    &&& at_level(ev, c, pos)
    &&& (pos < ev.len() ==> (ev[pos] is PopDir || name_lt(name, event_name(ev[pos])->0)))
    &&& forall|q: int| c <= q < pos && is_child(ev, c, q) ==> !name_lt(name, #[trigger] event_name(ev[q])->0)
    &&& match found {
        Some(q) => is_child(ev, c, q as int) && event_name(ev[q as int]) == Some(name),
        None => forall|q: int| #[trigger] is_child(ev, c, q) ==> event_name(ev[q]) != Some(name),
    }
}

/// The name of an entry that has one.
fn entry_name(e: &FsEntry) -> (r: Option<&Vec<u8>>)
    ensures
        r matches Some(n) ==> event_name(e@) == Some(n@),
        r is None ==> event_name(e@) is None,
{
    match e {
        FsEntry::PushDir { name } => Some(name),
        FsEntry::File { name, .. } => Some(name),
        FsEntry::PopDir => None,
    }
}

proof fn lemma_depth_step(ev: Seq<Event>, c: int, j: int)
    requires
        c <= j < ev.len(),
    ensures
        depth(ev, c, j + 1) == depth(ev, c, j) + delta(ev[j]),
{
}

/// Whether the child directory at `q` of the directory whose contents start
/// at `c` never closes.
pub open spec fn never_closes(ev: Seq<Event>, c: int, q: int) -> bool {
    &&& is_child(ev, c, q)
    &&& ev[q] is PushDir
    &&& forall|r: int| q < r <= ev.len() ==> depth(ev, c, r) >= 1
}

/// Whether `q` holds a child named `name` of the directory whose contents
/// start at `c`.
pub open spec fn named_child(ev: Seq<Event>, c: int, name: Seq<u8>, q: int) -> bool {
    is_child(ev, c, q) && event_name(ev[q]) == Some(name)
}

/// Whether a new child named `name` may go at `q`: the end of the
/// directory's contents, or a child whose name comes after `name`.
pub open spec fn stops(ev: Seq<Event>, c: int, name: Seq<u8>, q: int) -> bool {
    at_level(ev, c, q) && (q == ev.len() || ev[q] is PopDir || name_lt(name, event_name(ev[q])->0))
}

/// The first child named `name` of the directory whose contents start at `c`.
#[verifier::opaque]
pub open spec fn first_named(ev: Seq<Event>, c: int, name: Seq<u8>) -> Option<int> {
    if exists|q: int| named_child(ev, c, name, q) {
        Some(choose|q: int| named_child(ev, c, name, q) && forall|q2: int| q2 < q ==> !named_child(ev, c, name, q2))
    } else {
        None
    }
}

/// Where a new child named `name` goes: the first place it may go.
#[verifier::opaque]
pub open spec fn first_stop(ev: Seq<Event>, c: int, name: Seq<u8>) -> int {
    choose|q: int| stops(ev, c, name, q) && forall|q2: int| q2 < q ==> !stops(ev, c, name, q2)
}

/// Whether a child directory from `c` on never closes.
pub open spec fn has_unclosed(ev: Seq<Event>, c: int) -> bool {
    exists|q: int| never_closes(ev, c, q)
}

/// Whether the children of the directory whose contents start at `c` are in
/// the order of their names.
pub open spec fn children_in_order(ev: Seq<Event>, c: int) -> bool {
    forall|q1: int, q2: int|
        q1 < q2 && #[trigger] is_child(ev, c, q1) && #[trigger] is_child(ev, c, q2) ==> !name_lt(
            event_name(ev[q2])->0,
            event_name(ev[q1])->0,
        )
}

/// The depths from `c` once a file is added at `pos`.
pub proof fn lemma_depth_insert_file(ev: Seq<Event>, c: int, pos: int, e: Event, j: int)
    requires
        e is File,
        0 <= c <= pos <= ev.len(),
        c <= j <= ev.len() + 1,
    ensures
        j <= pos ==> depth(ev.insert(pos, e), c, j) == depth(ev, c, j),
        j > pos ==> depth(ev.insert(pos, e), c, j) == depth(ev, c, j - 1),
    decreases j - c,
{
    let ev2 = ev.insert(pos, e);
    if j > c {
        lemma_depth_insert_file(ev, c, pos, e, j - 1);
        if j - 1 < pos {
            assert(ev2[j - 1] == ev[j - 1]);
        } else if j - 1 > pos {
            assert(ev2[j - 1] == ev[j - 2]);
        }
    }
}

/// Which positions hold children once a file is added at `pos`.
proof fn lemma_children_after_insert(ev: Seq<Event>, c: int, pos: int, e: Event, q: int)
    requires
        e is File,
        0 <= c <= pos <= ev.len(),
        at_level(ev, c, pos),
    ensures
        q < pos ==> (is_child(ev.insert(pos, e), c, q) == is_child(ev, c, q)),
        q == pos ==> is_child(ev.insert(pos, e), c, q),
        q > pos ==> (is_child(ev.insert(pos, e), c, q) == is_child(ev, c, q - 1)),
{
    let ev2 = ev.insert(pos, e);
    assert forall|j: int| c <= j <= ev.len() + 1 implies (j <= pos ==> depth(ev2, c, j) == depth(ev, c, j)) && (j
        > pos ==> depth(ev2, c, j) == depth(ev, c, j - 1)) by {
        lemma_depth_insert_file(ev, c, pos, e, j);
    }
    if q < pos {
        if is_child(ev, c, q) {
            assert(ev2[q] == ev[q]);
        }
        if is_child(ev2, c, q) {
            assert(ev2[q] == ev[q]);
        }
    } else if q > pos {
        if is_child(ev, c, q - 1) {
            assert(ev2[q] == ev[q - 1]);
            assert forall|r: int| c <= r <= q implies depth(ev2, c, r) >= 0 by {
                if r > pos {
                    assert(c <= r - 1 <= q - 1);
                }
            }
        }
        if is_child(ev2, c, q) {
            assert(ev2[q] == ev[q - 1]);
            assert forall|r: int| c <= r <= q - 1 implies depth(ev, c, r) >= 0 by {
                if r >= pos {
                    assert(depth(ev2, c, r + 1) == depth(ev, c, r));
                } else {
                    assert(depth(ev2, c, r) == depth(ev, c, r));
                }
            }
        }
    } else {
        assert(ev2[q] == e);
    }
}

/// Putting a file named `name` where `first_stop` puts it keeps a
/// directory's children in order.
pub proof fn lemma_insert_keeps_order(ev: Seq<Event>, c: int, name: Seq<u8>, off: u32, size: u32)
    requires
        0 <= c <= ev.len(),
        children_in_order(ev, c),
        exists|p: int| stops(ev, c, name, p) && forall|q2: int| q2 < p ==> !stops(ev, c, name, q2),
    ensures
        children_in_order(ev.insert(first_stop(ev, c, name), Event::File(name, off, size)), c),
{
    reveal(first_stop);
    let pos = first_stop(ev, c, name);
    let e = Event::File(name, off, size);
    let ev2 = ev.insert(pos, e);
    assert(stops(ev, c, name, pos));
    assert forall|q1: int, q2: int|
        q1 < q2 && #[trigger] is_child(ev2, c, q1) && #[trigger] is_child(ev2, c, q2) implies !name_lt(
        event_name(ev2[q2])->0,
        event_name(ev2[q1])->0,
    ) by {
        lemma_children_after_insert(ev, c, pos, e, q1);
        lemma_children_after_insert(ev, c, pos, e, q2);
        let o1 = if q1 < pos { q1 } else { q1 - 1 };
        let o2 = if q2 < pos { q2 } else { q2 - 1 };
        if q1 != pos && q2 != pos {
            assert(ev2[q1] == ev[o1]);
            assert(ev2[q2] == ev[o2]);
        } else if q2 == pos {
            assert(ev2[q1] == ev[q1]);
            assert(!stops(ev, c, name, q1));
        } else {
            assert(ev2[q2] == ev[o2]);
            assert(o2 >= pos);
            if pos == ev.len() || ev[pos] is PopDir {
                if o2 > pos {
                    lemma_depth_step(ev, c, pos);
                    assert(depth(ev, c, pos + 1) >= 0);
                }
            } else {
                assert(is_child(ev, c, pos));
                let n2 = event_name(ev[o2])->0;
                let np = event_name(ev[pos])->0;
                if name_lt(n2, name) {
                    lemma_name_lt_trans(n2, name, np);
                    if o2 == pos {
                        lemma_name_lt_irrefl(np);
                    }
                }
            }
        }
    }
}

/// The depths from `c` once an empty directory is added at `pos`.
proof fn lemma_depth_pair_from(ev: Seq<Event>, c: int, pos: int, name: Seq<u8>, j: int)
    requires
        0 <= c <= pos <= ev.len(),
        c <= j <= ev.len() + 2,
    ensures
        ({
            let ev2 = ev.insert(pos, Event::PushDir(name)).insert(pos + 1, Event::PopDir);
            &&& j <= pos ==> depth(ev2, c, j) == depth(ev, c, j)
            &&& j == pos + 1 ==> depth(ev2, c, j) == depth(ev, c, pos) + 1
            &&& j >= pos + 2 ==> depth(ev2, c, j) == depth(ev, c, j - 2)
        }),
    decreases j - c,
{
    let ev2 = ev.insert(pos, Event::PushDir(name)).insert(pos + 1, Event::PopDir);
    if j > c {
        lemma_depth_pair_from(ev, c, pos, name, j - 1);
        if j - 1 < pos {
            assert(ev2[j - 1] == ev[j - 1]);
        } else if j - 1 > pos + 1 {
            assert(ev2[j - 1] == ev[j - 3]);
        }
    }
}

/// Putting an empty directory named `name` where `first_stop` puts it
/// keeps a directory's children in order.
pub proof fn lemma_new_dir_keeps_order(ev: Seq<Event>, c: int, name: Seq<u8>)
    requires
        0 <= c <= ev.len(),
        children_in_order(ev, c),
        exists|p: int| stops(ev, c, name, p) && forall|q2: int| q2 < p ==> !stops(ev, c, name, q2),
    ensures
        children_in_order(
            ev.insert(first_stop(ev, c, name), Event::PushDir(name)).insert(
                first_stop(ev, c, name) + 1,
                Event::PopDir,
            ),
            c,
        ),
{
    reveal(first_stop);
    let pos = first_stop(ev, c, name);
    let ev2 = ev.insert(pos, Event::PushDir(name)).insert(pos + 1, Event::PopDir);
    assert(stops(ev, c, name, pos));
    assert forall|j: int| c <= j <= ev.len() + 2 implies {
        &&& j <= pos ==> depth(ev2, c, j) == depth(ev, c, j)
        &&& j == pos + 1 ==> depth(ev2, c, j) == depth(ev, c, pos) + 1
        &&& j >= pos + 2 ==> depth(ev2, c, j) == depth(ev, c, j - 2)
    } by {
        lemma_depth_pair_from(ev, c, pos, name, j);
    }
    // which positions hold children
    assert forall|q: int| #[trigger] is_child(ev2, c, q) && q != pos implies (q < pos && is_child(ev, c, q)
        && ev2[q] == ev[q]) || (q >= pos + 2 && is_child(ev, c, q - 2) && ev2[q] == ev[q - 2]) by {
        if q < pos {
            assert(ev2[q] == ev[q]);
        } else if q == pos + 1 {
            assert(depth(ev2, c, pos + 1) == depth(ev, c, pos) + 1);
        } else {
            assert(ev2[q] == ev[q - 2]);
            assert forall|r: int| c <= r <= q - 2 implies depth(ev, c, r) >= 0 by {
                if r >= pos {
                    assert(depth(ev2, c, r + 2) == depth(ev, c, r));
                } else {
                    assert(depth(ev2, c, r) == depth(ev, c, r));
                }
            }
        }
    }
    assert forall|q1: int, q2: int|
        q1 < q2 && #[trigger] is_child(ev2, c, q1) && #[trigger] is_child(ev2, c, q2) implies !name_lt(
        event_name(ev2[q2])->0,
        event_name(ev2[q1])->0,
    ) by {
        if q1 != pos && q2 != pos {
        } else if q2 == pos {
            assert(ev2[q1] == ev[q1]);
            assert(!stops(ev, c, name, q1));
            assert(ev2[pos] == Event::PushDir(name));
        } else {
            assert(ev2[pos] == Event::PushDir(name));
            let o2 = q2 - 2;
            assert(o2 >= pos);
            if pos == ev.len() || ev[pos] is PopDir {
                if o2 > pos {
                    lemma_depth_step(ev, c, pos);
                    assert(depth(ev, c, pos + 1) >= 0);
                }
            } else {
                assert(is_child(ev, c, pos));
                let n2 = event_name(ev[o2])->0;
                let np = event_name(ev[pos])->0;
                if name_lt(n2, name) {
                    lemma_name_lt_trans(n2, name, np);
                    if o2 == pos {
                        lemma_name_lt_irrefl(np);
                    }
                }
            }
        }
    }
}

/// A balanced walk has no directory that never closes.
pub proof fn lemma_balanced_closes(ev: Seq<Event>, c: int, q: int)
    requires
        balanced(ev),
        0 <= c <= ev.len(),
    ensures
        !never_closes(ev, c, q),
{
    lemma_depth_split(ev, 0, c, ev.len() as int);
    if never_closes(ev, c, q) {
        assert(depth(ev, c, ev.len() as int) >= 1);
        assert(depth(ev, 0, c) >= 0);
    }
}

/// Finds where `name` stands among the children of the directory whose
/// contents start at `c`, the children being in the order of `name_lt`;
/// `None` exactly where a child directory from `c` on never closes, so never
/// on a balanced walk.
pub fn find_slot(fs: &Vec<FsEntry>, c: usize, name: &Vec<u8>) -> (r: Option<Slot>)
    requires
        c <= fs@.len(),
    ensures
        r matches Some(slot) ==> slot_ok(events_of(fs@), c as int, name@, slot.found, slot.pos as int),
        r is None <==> has_unclosed(events_of(fs@), c as int),
        balanced(events_of(fs@)) ==> r is Some,
        r matches Some(slot) ==> slot.pos as int == first_stop(events_of(fs@), c as int, name@),
        r matches Some(slot) ==> stops(events_of(fs@), c as int, name@, slot.pos as int) && forall|q2: int|
            q2 < slot.pos ==> !stops(events_of(fs@), c as int, name@, q2),
        r matches Some(slot) ==> (match slot.found {
            Some(q) => first_named(events_of(fs@), c as int, name@) == Some(q as int),
            None => first_named(events_of(fs@), c as int, name@) is None,
        }),
{
    let ghost ev = events_of(fs@);
    let mut i: usize = c;
    let mut found: Option<usize> = None;
    let mut pos: Option<usize> = None;
    loop
        invariant
            ev == events_of(fs@),
            at_level(ev, c as int, i as int),
            pos matches Some(p) ==> at_level(ev, c as int, p as int) && p < ev.len() && p < i
                && !(ev[p as int] is PopDir) && name_lt(name@, event_name(ev[p as int])->0)
                && forall|q: int|
                c <= q < p && is_child(ev, c as int, q) ==> !name_lt(
                    name@,
                    #[trigger] event_name(ev[q])->0,
                ),
            pos is None ==> forall|q: int|
                c <= q < i && is_child(ev, c as int, q) ==> !name_lt(
                    name@,
                    #[trigger] event_name(ev[q])->0,
                ),
            found matches Some(q) ==> is_child(ev, c as int, q as int) && event_name(ev[q as int])
                == Some(name@),
            found is None ==> forall|q: int|
                c <= q < i && #[trigger] is_child(ev, c as int, q) ==> event_name(ev[q]) != Some(
                    name@,
                ),
            found matches Some(q) ==> q < i && forall|q2: int|
                c <= q2 < q && #[trigger] is_child(ev, c as int, q2) ==> event_name(ev[q2]) != Some(name@),
            forall|q2: int| c <= q2 < i && #[trigger] at_level(ev, c as int, q2) ==> q2 < ev.len() && !(ev[q2] is PopDir),
            forall|q2: int| c <= q2 < i ==> !#[trigger] never_closes(ev, c as int, q2),
        ensures
            at_level(ev, c as int, i as int),
            i == fs@.len() || ev[i as int] is PopDir,
            pos matches Some(p) ==> at_level(ev, c as int, p as int) && p < ev.len() && !(
            ev[p as int] is PopDir) && name_lt(name@, event_name(ev[p as int])->0)
                && forall|q: int|
                c <= q < p && is_child(ev, c as int, q) ==> !name_lt(
                    name@,
                    #[trigger] event_name(ev[q])->0,
                ),
            pos is None ==> forall|q: int|
                c <= q < i && is_child(ev, c as int, q) ==> !name_lt(
                    name@,
                    #[trigger] event_name(ev[q])->0,
                ),
            found matches Some(q) ==> is_child(ev, c as int, q as int) && event_name(ev[q as int])
                == Some(name@),
            found is None ==> forall|q: int|
                c <= q < i && #[trigger] is_child(ev, c as int, q) ==> event_name(ev[q]) != Some(
                    name@,
                ),
            found matches Some(q) ==> q < i && forall|q2: int|
                c <= q2 < q && #[trigger] is_child(ev, c as int, q2) ==> event_name(ev[q2]) != Some(name@),
            forall|q2: int| c <= q2 < i && #[trigger] at_level(ev, c as int, q2) ==> q2 < ev.len() && !(ev[q2] is PopDir),
            forall|q2: int| c <= q2 < i ==> !#[trigger] never_closes(ev, c as int, q2),
        decreases fs@.len() - i,
    {
        if i >= fs.len() {
            break;
        }
        assert(ev[i as int] == fs@[i as int]@);
        let n = match entry_name(&fs[i]) {
            Some(n) => n,
            None => {
                break;
            },
        };
        assert(is_child(ev, c as int, i as int));
        if found.is_none() && bytes_eq(n.as_slice(), name.as_slice()) {
            found = Some(i);
        }
        if pos.is_none() && name_precedes(name.as_slice(), n.as_slice()) {
            pos = Some(i);
        }
        // step over the child, and its contents where it is a directory
        let ghost i0 = i;
        let mut d: usize = 0;
        proof {
            lemma_depth_step(ev, c as int, i as int);
        }
        i = i + 1;
        if let FsEntry::PushDir { .. } = &fs[i - 1] {
            d = 1;
            while d > 0 && i < fs.len()
                invariant
                    ev == events_of(fs@),
                    i0 < i <= fs@.len(),
                    at_level(ev, c as int, i0 as int),
                    depth(ev, c as int, i as int) == d,
                    d <= i,
                    forall|r: int| i0 < r <= i ==> depth(ev, c as int, r) >= 1 || (r == i && d == 0),
                decreases fs@.len() - i,
            {
                proof {
                    lemma_depth_step(ev, c as int, i as int);
                }
                assert(ev[i as int] == fs@[i as int]@);
                match &fs[i] {
                    FsEntry::PushDir { .. } => {
                        d = d + 1;
                    },
                    FsEntry::PopDir => {
                        d = d - 1;
                    },
                    _ => {},
                }
                i = i + 1;
            }
            if d > 0 {
                proof {
                    assert(never_closes(ev, c as int, i0 as int));
                    assert(has_unclosed(ev, c as int));
                    if balanced(ev) {
                        lemma_balanced_closes(ev, c as int, i0 as int);
                    }
                }
                return None;
            }
        }
    }
    proof {
        assert forall|q: int| #[trigger] is_child(ev, c as int, q) implies q < i by {
            if q > i {
                lemma_depth_step(ev, c as int, i as int);
                assert(depth(ev, c as int, i + 1) >= 0);
            }
        }
    }
    let p = match pos {
        Some(p) => p,
        None => i,
    };
    proof {
        reveal(first_named);
        reveal(first_stop);
        assert forall|q: int| !never_closes(ev, c as int, q) by {
            if never_closes(ev, c as int, q) {
                assert(is_child(ev, c as int, q));
            }
        }
        assert(stops(ev, c as int, name@, p as int));
        assert forall|q2: int| q2 < p implies !stops(ev, c as int, name@, q2) by {
            if stops(ev, c as int, name@, q2) {
                assert(is_child(ev, c as int, q2));
            }
        }
        let fp = choose|q: int| stops(ev, c as int, name@, q) && forall|q2: int| q2 < q ==> !stops(ev, c as int, name@, q2);
        assert(fp == p as int) by {
            if fp < p {
            } else if fp > p {
            }
        }
        match found {
            Some(q) => {
                assert(named_child(ev, c as int, name@, q as int));
                assert forall|q2: int| q2 < q implies !named_child(ev, c as int, name@, q2) by {}
                let fq = choose|qq: int| named_child(ev, c as int, name@, qq) && forall|q2: int| q2 < qq ==> !named_child(ev, c as int, name@, q2);
                assert(fq == q as int) by {
                    if fq < q {
                    } else if fq > q {
                    }
                }
            },
            None => {
                assert forall|q: int| !named_child(ev, c as int, name@, q) by {
                    if named_child(ev, c as int, name@, q) {
                        assert(is_child(ev, c as int, q));
                    }
                }
            },
        }
    }
    Some(Slot { found, pos: p })
}

/// The name of the directory that holds the boot files on the host,
/// `&&systemdata`; it never stands in the table.
pub open spec fn system_data_name() -> Seq<u8> {
    seq![0x26u8, 0x26u8, 0x73u8, 0x79u8, 0x73u8, 0x74u8, 0x65u8, 0x6du8, 0x64u8, 0x61u8, 0x74u8, 0x61u8]
}

/// The bytes of `&&systemdata`.
pub fn system_data_bytes() -> (r: Vec<u8>)
    ensures
        r@ == system_data_name(),
{
    let r: Vec<u8> = vec![0x26, 0x26, 0x73, 0x79, 0x73, 0x74, 0x65, 0x6d, 0x64, 0x61, 0x74, 0x61];
    assert(r@ =~= system_data_name());
    r
}

/// Whether `c` can name a directory or file in the table: printable ASCII
/// or other bytes below 0x80 but NUL, and not `.`, `..` or the reserved
/// name of the host's boot files.
pub open spec fn valid_component(c: Seq<u8>) -> bool {
    &&& c.len() > 0
    &&& forall|k: int| 0 <= k < c.len() ==> 0 < #[trigger] c[k] < 0x80
    &&& c != seq![0x2eu8]
    &&& c != seq![0x2eu8, 0x2eu8]
    &&& c != system_data_name()
}

/// Whether `c` can name a directory or file in the table.
pub fn is_valid_component(c: &Vec<u8>) -> (r: bool)
    ensures
        r == valid_component(c@),
{
    if c.len() == 0 {
        return false;
    }
    let mut k: usize = 0;
    while k < c.len()
        invariant
            k <= c@.len(),
            forall|j: int| 0 <= j < k ==> 0 < #[trigger] c@[j] < 0x80,
        decreases c@.len() - k,
    {
        if c[k] == 0 || c[k] >= 0x80 {
            return false;
        }
        k = k + 1;
    }
    let dot: [u8; 1] = [0x2e];
    let dotdot: [u8; 2] = [0x2e, 0x2e];
    let reserved = system_data_bytes();
    proof {
        assert(dot@ =~= seq![0x2eu8]);
        assert(dotdot@ =~= seq![0x2eu8, 0x2eu8]);
    }
    !bytes_eq(c.as_slice(), dot.as_slice()) && !bytes_eq(c.as_slice(), dotdot.as_slice())
        && !bytes_eq(c.as_slice(), reserved.as_slice())
}

/// Whether every component can name a directory or file in the table.
pub fn all_valid(comps: &Vec<Vec<u8>>) -> (r: bool)
    ensures
        r == forall|k: int| 0 <= k < comps@.len() ==> valid_component(#[trigger] comps@[k]@),
{
    let mut k: usize = 0;
    while k < comps.len()
        invariant
            k <= comps@.len(),
            forall|j: int| 0 <= j < k ==> valid_component(#[trigger] comps@[j]@),
        decreases comps@.len() - k,
    {
        if !is_valid_component(&comps[k]) {
            return false;
        }
        k = k + 1;
    }
    true
}

/// Whether each file among `new` is one of the events of `old`.
pub open spec fn files_from(new: Seq<Event>, old: Seq<Event>) -> bool {
    forall|i: int| 0 <= i < new.len() && (#[trigger] new[i]) is File ==> old.contains(new[i])
}

/// Whether `f` places the events of `old`, in order, among those of `new`.
pub open spec fn places(f: Seq<int>, old: Seq<Event>, new: Seq<Event>) -> bool {
    &&& f.len() == old.len()
    &&& forall|i: int| 0 <= i < f.len() ==> 0 <= #[trigger] f[i] < new.len() && new[f[i]] == old[i]
    &&& forall|i: int, j: int| 0 <= i < j < f.len() ==> #[trigger] f[i] < #[trigger] f[j]
}

/// Whether `new` holds every event of `old`, in order, and maybe more.
pub open spec fn keeps(old: Seq<Event>, new: Seq<Event>) -> bool {
    exists|f: Seq<int>| places(f, old, new)
}

/// Whether, walking down the directories `path`, a file stands at step `k`
/// in the place of the directory: `cur` starts the contents of the
/// directories before it, and the file is the child at `q`.
pub open spec fn file_in_way_at(ev: Seq<Event>, path: Seq<Seq<u8>>, k: int, cur: int, q: int) -> bool {
    &&& 0 <= k < path.len()
    &&& 0 <= cur <= ev.len()
    &&& open_dirs(ev, cur) == path.subrange(0, k)
    &&& is_child(ev, cur, q)
    &&& ev[q] is File
    &&& event_name(ev[q]) == Some(path[k])
}

/// Whether a file stands in the place of one of the directories `path`.
pub open spec fn file_in_way(ev: Seq<Event>, path: Seq<Seq<u8>>) -> bool {
    exists|k: int, cur: int, q: int| file_in_way_at(ev, path, k, cur, q)
}

/// Whether each directory among `new` is one of the events of `old` or is
/// named by one of `names`.
pub open spec fn dirs_from(new: Seq<Event>, old: Seq<Event>, names: Seq<Seq<u8>>) -> bool {
    forall|i: int|
        0 <= i < new.len() && (#[trigger] new[i]) is PushDir ==> old.contains(new[i]) || exists|m: int|
            0 <= m < names.len() && new[i] == Event::PushDir(names[m])
}

/// Why directories could not be made.
#[derive(Clone, Copy, Debug, PartialEq, Eq)]
pub enum DirError {
    /// A file stands where a directory is needed.
    FileInTheWay,
    /// A directory on the way never closes.
    Unclosed,
}

/// What making the directories `dirs` one inside the other, from the
/// directory whose contents start at `cur`, gives: the events and where the
/// last one's contents start. A missing directory goes, empty, where
/// `first_stop` puts it.
pub open spec fn dirs_spec(ev: Seq<Event>, cur: int, dirs: Seq<Seq<u8>>) -> Result<(Seq<Event>, int), DirError>
    decreases dirs.len(),
{
    if dirs.len() == 0 {
        Ok((ev, cur))
    } else if has_unclosed(ev, cur) {
        Err(DirError::Unclosed)
    } else {
        match first_named(ev, cur, dirs[0]) {
            Some(q) => if ev[q] is PushDir {
                dirs_spec(ev, q + 1, dirs.drop_first())
            } else {
                Err(DirError::FileInTheWay)
            },
            None => {
                let pos = first_stop(ev, cur, dirs[0]);
                dirs_spec(
                    ev.insert(pos, Event::PushDir(dirs[0])).insert(pos + 1, Event::PopDir),
                    pos + 1,
                    dirs.drop_first(),
                )
            },
        }
    }
}

/// Makes sure that the directories `dirs` exist one inside the other, adding
/// each missing one, empty, in order among its siblings, and returns the
/// position where the contents of the last one start.
pub fn make_dirs(fs: &mut Vec<FsEntry>, dirs: &Vec<Vec<u8>>, upto: usize) -> (r: Result<usize, DirError>)
    requires
        upto <= dirs@.len(),
    ensures
        r matches Ok(cur) ==> cur <= final(fs)@.len() && open_dirs(events_of(final(fs)@), cur as int)
            == names_view(dirs@).subrange(0, upto as int),
        files_from(events_of(final(fs)@), events_of(old(fs)@)),
        keeps(events_of(old(fs)@), events_of(final(fs)@)),
        r matches Err(DirError::Unclosed) ==> !balanced(events_of(old(fs)@)),
        r matches Err(DirError::FileInTheWay) ==> file_in_way(
            events_of(final(fs)@),
            names_view(dirs@).subrange(0, upto as int),
        ),
        balanced(events_of(old(fs)@)) ==> balanced(events_of(final(fs)@)),
        dirs_from(events_of(final(fs)@), events_of(old(fs)@), names_view(dirs@).subrange(0, upto as int)),
        match dirs_spec(events_of(old(fs)@), 0, names_view(dirs@).subrange(0, upto as int)) {
            Ok((ev, cur)) => (r matches Ok(c) && c as int == cur) && events_of(final(fs)@) == ev,
            Err(e) => r == Err::<usize, DirError>(e),
        },
{
    let ghost cv = names_view(dirs@);
    let ghost ev0 = events_of(fs@);
    let ghost mut f = Seq::new(ev0.len(), |i: int| i);
    assert(places(f, ev0, events_of(fs@)));
    let mut cur: usize = 0;
    let mut k: usize = 0;
    assert(cv.subrange(0, 0) =~= Seq::<Seq<u8>>::empty());
    while k < upto
        invariant
            k <= upto <= dirs@.len(),
            cv == names_view(dirs@),
            cur <= fs@.len(),
            open_dirs(events_of(fs@), cur as int) == cv.subrange(0, k as int),
            ev0 == events_of(old(fs)@),
            files_from(events_of(fs@), ev0),
            dirs_from(events_of(fs@), ev0, cv.subrange(0, upto as int)),
            places(f, ev0, events_of(fs@)),
            balanced(ev0) ==> balanced(events_of(fs@)),
            dirs_spec(ev0, 0, cv.subrange(0, upto as int)) == dirs_spec(
                events_of(fs@),
                cur as int,
                cv.subrange(k as int, upto as int),
            ),
        decreases upto - k,
    {
        let name = &dirs[k];
        let ghost ev = events_of(fs@);
        assert(ev.len() == fs@.len());
        let slot = match find_slot(fs, cur, name) {
            Some(s) => s,
            None => {
                proof {
                    let rest = cv.subrange(k as int, upto as int);
                    assert(rest.len() > 0);
                }
                return Err(DirError::Unclosed);
            },
        };
        let ghost k0 = k;
        let ghost cur0 = cur;
        let ghost rest = cv.subrange(k as int, upto as int);
        proof {
            assert(rest[0] == name@);
            assert(rest.drop_first() =~= cv.subrange(k + 1, upto as int));
            assert(!has_unclosed(ev, cur as int));
            lemma_open_dirs_depth(ev, cur as int, slot.pos as int);
            assert(open_dirs(ev, cur as int).subrange(0, open_dirs(ev, cur as int).len() as int)
                =~= open_dirs(ev, cur as int));
            assert(cv.subrange(0, k + 1) =~= cv.subrange(0, k as int).push(name@));
        }
        match slot.found {
            Some(q) => {
                assert(is_child(ev, cur as int, q as int));
                assert(q < fs@.len());
                let _len = fs.len();
                assert(ev[q as int] == fs@[q as int]@);
                match &fs[q] {
                    FsEntry::PushDir { .. } => {
                        proof {
                            lemma_open_dirs_depth(ev, cur as int, q as int);
                        }
                        cur = q + 1;
                    },
                    _ => {
                        proof {
                            assert(ev[q as int] is File);
                            assert(cv.subrange(0, upto as int).subrange(0, k as int) =~= cv.subrange(0, k as int));
                            assert(file_in_way_at(ev, cv.subrange(0, upto as int), k as int, cur as int, q as int));
                        }
                        return Err(DirError::FileInTheWay);
                    },
                }
            },
            None => {
                let pos = slot.pos;
                fs.insert(pos, FsEntry::PushDir { name: copy_bytes(name.as_slice()) });
                let _len = fs.len();
                fs.insert(pos + 1, FsEntry::PopDir);
                let ghost ev2 = events_of(fs@);
                proof {
                    assert(ev2 =~= ev.insert(pos as int, Event::PushDir(name@)).insert(pos + 1, Event::PopDir));
                    if balanced(ev0) {
                        lemma_pair_balanced(ev, pos as int, name@);
                    }
                    assert(ev2.subrange(0, pos as int) =~= ev.subrange(0, pos as int));
                    lemma_open_dirs_prefix(ev2, ev, pos as int);
                    assert(ev2[pos as int] == Event::PushDir(name@));
                    assert forall|i: int| 0 <= i < ev2.len() && (#[trigger] ev2[i]) is File implies ev0.contains(
                        ev2[i],
                    ) by {
                        if i < pos {
                            assert(ev2[i] == ev[i]);
                        } else if i > pos + 1 {
                            assert(ev2[i] == ev[i - 2]);
                        }
                        let j = if i < pos { i } else { i - 2 };
                        assert(ev.contains(ev2[i]) ) by { assert(ev[j] == ev2[i]); }
                    }
                    assert forall|i: int| 0 <= i < ev2.len() && (#[trigger] ev2[i]) is PushDir implies ev0.contains(
                        ev2[i],
                    ) || exists|m: int| 0 <= m < cv.subrange(0, upto as int).len() && ev2[i] == Event::PushDir(
                        cv.subrange(0, upto as int)[m],
                    ) by {
                        if i == pos {
                            assert(cv.subrange(0, upto as int)[k as int] == name@);
                        } else if i != pos + 1 {
                            let j = if i < pos { i } else { i - 2 };
                            assert(ev[j] == ev2[i]);
                        }
                    }
                    let g = Seq::new(f.len(), |i: int| if f[i] < pos { f[i] } else { f[i] + 2 });
                    assert forall|i: int| 0 <= i < g.len() implies 0 <= #[trigger] g[i] < ev2.len() && ev2[g[i]] == ev0[i] by {
                        if f[i] < pos {
                            assert(ev2[f[i]] == ev[f[i]]);
                        } else {
                            assert(ev2[f[i] + 2] == ev[f[i]]);
                        }
                    }
                    assert forall|i: int, j: int| 0 <= i < j < g.len() implies #[trigger] g[i] < #[trigger] g[j] by {
                        assert(f[i] < f[j]);
                    }
                    f = g;
                }
                cur = pos + 1;
            },
        }
        k = k + 1;
    }
    proof {
        assert(cv.subrange(k as int, upto as int).len() == 0);
    }
    Ok(cur)
}

/// Makes sure that the directories of `dir_path` exist, adding each missing
/// one, empty, in order among its siblings, and returns the position where
/// the contents of the last one start.
///
/// Fails with `InvalidISOPath` where a component cannot name a directory or
/// a file stands in its place, and with `InvalidISO` where a directory on
/// the way never closes.
pub fn mkdir_all(fs: &mut Vec<FsEntry>, dir_path: &str) -> (r: Result<usize, OperateISOError>)
    ensures
        r matches Ok(cur) ==> cur <= final(fs)@.len() && open_dirs(events_of(final(fs)@), cur as int)
            == components(dir_path.spec_bytes()),
        !(forall|k: int|
            0 <= k < components(dir_path.spec_bytes()).len() ==> valid_component(
                #[trigger] components(dir_path.spec_bytes())[k],
            )) ==> (r matches Err(OperateISOError::InvalidISOPath(_))) && final(fs)@ == old(fs)@,
        keeps(events_of(old(fs)@), events_of(final(fs)@)),
        files_from(events_of(final(fs)@), events_of(old(fs)@)),
        r matches Err(OperateISOError::InvalidISO) ==> !balanced(events_of(old(fs)@)),
        r matches Err(OperateISOError::InvalidISOPath(_)) ==> !(forall|k: int|
            0 <= k < components(dir_path.spec_bytes()).len() ==> valid_component(
                #[trigger] components(dir_path.spec_bytes())[k],
            )) || file_in_way(events_of(final(fs)@), components(dir_path.spec_bytes())),
        r is Err ==> (r matches Err(OperateISOError::InvalidISO)) || (r matches Err(
            OperateISOError::InvalidISOPath(_),
        )),
        balanced(events_of(old(fs)@)) ==> balanced(events_of(final(fs)@)),
        dirs_from(events_of(final(fs)@), events_of(old(fs)@), components(dir_path.spec_bytes())),
        (forall|k: int|
            0 <= k < components(dir_path.spec_bytes()).len() ==> valid_component(
                #[trigger] components(dir_path.spec_bytes())[k],
            )) ==> match dirs_spec(events_of(old(fs)@), 0, components(dir_path.spec_bytes())) {
            Ok((ev, cur)) => (r matches Ok(c) && c as int == cur) && events_of(final(fs)@) == ev,
            Err(DirError::FileInTheWay) => r matches Err(OperateISOError::InvalidISOPath(_)),
            Err(DirError::Unclosed) => r matches Err(OperateISOError::InvalidISO),
        },
{
    proof {
        let ev = events_of(fs@);
        let f = Seq::new(ev.len(), |i: int| i);
        assert(places(f, ev, ev));
        assert forall|i: int| 0 <= i < ev.len() && (#[trigger] ev[i]) is File implies ev.contains(ev[i]) by {}
        assert forall|i: int| 0 <= i < ev.len() && (#[trigger] ev[i]) is PushDir implies ev.contains(ev[i]) by {}
    }
    let comps = split_path(dir_path.as_bytes());
    let ghost cv = names_view(comps@);
    assert(cv == components(dir_path.spec_bytes()));
    assert(forall|k: int| 0 <= k < cv.len() ==> #[trigger] cv[k] == comps@[k]@);
    if !all_valid(&comps) {
        let ghost bad = choose|j: int| 0 <= j < comps@.len() && !valid_component(#[trigger] comps@[j]@);
        assert(!valid_component(cv[bad]));
        return Err(OperateISOError::InvalidISOPath(dir_path.to_owned()));
    }
    let res = make_dirs(fs, &comps, comps.len());
    assert(cv.subrange(0, cv.len() as int) =~= cv);
    match res {
        Ok(cur) => {
            assert(cv.subrange(0, cv.len() as int) =~= cv);
            Ok(cur)
        },
        Err(DirError::FileInTheWay) => Err(OperateISOError::InvalidISOPath(dir_path.to_owned())),
        Err(DirError::Unclosed) => Err(OperateISOError::InvalidISO),
    }
}

} // verus!
