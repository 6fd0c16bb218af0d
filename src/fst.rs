//! The file string table: its entries, its string pool, and the event stream
//! that describes the directory tree in depth-first order.

use crate::bytes::{be32, be_bytes, extend_bytes, push_be32, put_be32, word_at, write_u32};
use vstd::prelude::*;
use vstd::utf8::valid_utf8;

verus! {

/// One step of a depth-first walk over the tree, as held in memory.
#[derive(Clone, Debug, PartialEq, Eq)]
pub enum FsEntry {
    PushDir { name: Vec<u8> },
    PopDir,
    File { name: Vec<u8>, offset: u32, size: u32 },
}

/// What an `FsEntry` stands for.
pub enum Event {
    PushDir(Seq<u8>),
    PopDir,
    File(Seq<u8>, u32, u32),
}

impl View for FsEntry {
    type V = Event;

    open spec fn view(&self) -> Event {
        match self {
            FsEntry::PushDir { name } => Event::PushDir(name@),
            FsEntry::PopDir => Event::PopDir,
            FsEntry::File { name, offset, size } => Event::File(name@, *offset, *size),
        }
    }
}

/// The events that a list of entries stands for.
pub open spec fn events_of(fs: Seq<FsEntry>) -> Seq<Event> {
    fs.map_values(|e: FsEntry| e@)
}

/// A copy of `v`.
pub fn copy_bytes(v: &[u8]) -> (r: Vec<u8>)
    ensures
        r@ == v@,
{
    let mut r: Vec<u8> = Vec::new();
    extend_bytes(&mut r, v);
    assert(r@ =~= v@);
    r
}

/// A copy of `e`.
pub fn copy_entry(e: &FsEntry) -> (r: FsEntry)
    ensures
        r@ == e@,
{
    match e {
        FsEntry::PushDir { name } => FsEntry::PushDir { name: copy_bytes(name.as_slice()) },
        FsEntry::PopDir => FsEntry::PopDir,
        FsEntry::File { name, offset, size } => FsEntry::File {
            name: copy_bytes(name.as_slice()),
            offset: *offset,
            size: *size,
        },
    }
}

/// The largest string pool: name offsets have 24 bits.
pub const MAX_STRING_POOL: usize = 0x100_0000;

// ---------------------------------------------------------------------------
// names in the string pool

/// The position of the first NUL at or after `j`, or the length of `s`.
pub open spec fn first_nul(s: Seq<u8>, j: int) -> int
    decreases s.len() - j,
{
    if j < 0 || j >= s.len() {
        s.len() as int
    } else if s[j] == 0 {
        j
    } else {
        first_nul(s, j + 1)
    }
}

/// The NUL-terminated name that starts at `start`, if a NUL follows it in `s`.
pub open spec fn name_at(s: Seq<u8>, start: int) -> Option<Seq<u8>> {
    if 0 <= start < s.len() && first_nul(s, start) < s.len() {
        Some(s.subrange(start, first_nul(s, start)))
    } else {
        None
    }
}

pub proof fn lemma_first_nul_bounds(s: Seq<u8>, j: int)
    requires
        0 <= j <= s.len(),
    ensures
        j <= first_nul(s, j) <= s.len(),
        first_nul(s, j) < s.len() ==> s[first_nul(s, j)] == 0,
        forall|k: int| j <= k < first_nul(s, j) ==> s[k] != 0,
    decreases s.len() - j,
{
    if j < s.len() && s[j] != 0 {
        lemma_first_nul_bounds(s, j + 1);
    }
}

/// The name at `start` where it is NUL-terminated and valid UTF-8.
pub open spec fn utf8_name_at(s: Seq<u8>, start: int) -> Option<Seq<u8>> {
    match name_at(s, start) {
        Some(n) => if valid_utf8(n) {
            Some(n)
        } else {
            None
        },
        None => None,
    }
}

/// Relies on `std::str::from_utf8`: it succeeds exactly on valid UTF-8.
#[verifier::external_body]
fn is_utf8(b: &[u8]) -> (r: bool)
    ensures
        r == valid_utf8(b@),
{
    std::str::from_utf8(b).is_ok()
}

/// Reads the NUL-terminated name at `start`; `None` where no NUL follows it
/// or it is not valid UTF-8.
pub fn read_name(s: &[u8], start: usize) -> (r: Option<Vec<u8>>)
    ensures
        r matches Some(n) ==> utf8_name_at(s@, start as int) == Some(n@),
        r is None ==> utf8_name_at(s@, start as int) is None,
{
    let len = s.len();
    if start >= len {
        return None;
    }
    let mut j: usize = start;
    while j < len && s[j] != 0
        invariant
            start <= j <= len,
            len == s@.len(),
            first_nul(s@, start as int) == first_nul(s@, j as int),
        decreases len - j,
    {
        j = j + 1;
    }
    if j >= len {
        return None;
    }
    let mut name: Vec<u8> = Vec::new();
    let mut k: usize = start;
    while k < j
        invariant
            start <= k <= j < len,
            len == s@.len(),
            name@ == s@.subrange(start as int, k as int),
        decreases j - k,
    {
        name.push(s[k]);
        k = k + 1;
        assert(name@ =~= s@.subrange(start as int, k as int));
    }
    if !is_utf8(name.as_slice()) {
        return None;
    }
    Some(name)
}

// ---------------------------------------------------------------------------
// reading

/// The 24-bit name offset of the entry whose bytes start at `e`.
pub open spec fn name_offset_at(s: Seq<u8>, e: int) -> int {
    s[e + 1] as int * 0x10000 + s[e + 2] as int * 0x100 + s[e + 3] as int
}

/// Emits a `PopDir` for each open directory that ends at entry `i`.
pub open spec fn close_dirs(ev: Seq<Event>, open: Seq<u32>, i: int) -> (Seq<Event>, Seq<u32>)
    decreases open.len(),
{
    if open.len() > 0 && open.last() == i {
        close_dirs(ev.push(Event::PopDir), open.drop_last(), i)
    } else {
        (ev, open)
    }
}

/// The next index allowed for a directory that starts below the open
/// directories `open`, in a table of `count` entries.
pub open spec fn dir_end_bound(open: Seq<u32>, count: u32) -> int {
    if open.len() > 0 {
        open.last() as int
    } else {
        count as int
    }
}

/// Reads entry `i` of the table at `fst`, after the directories that end
/// there are closed.
pub open spec fn read_entry(s: Seq<u8>, fst: int, i: int, ev: Seq<Event>, open: Seq<u32>) -> Option<
    (Seq<Event>, Seq<u32>),
> {
    let e = fst + 12 * i;
    let pool = fst + 12 * be32(s, fst + 8);
    match utf8_name_at(s, pool + name_offset_at(s, e)) {
        None => None,
        Some(name) => if s[e] == 0 {
            Some((ev.push(Event::File(name, be32(s, e + 4), be32(s, e + 8))), open))
        } else {
            let next = be32(s, e + 8);
            if i < next <= dir_end_bound(open, be32(s, fst + 8)) {
                Some((ev.push(Event::PushDir(name)), open.push(next)))
            } else {
                None
            }
        },
    }
}

/// The events and the open directories after entries `1 .. n` of the table
/// at `fst`, or `None` where one of them is malformed.
pub open spec fn parse_upto(s: Seq<u8>, fst: int, n: int) -> Option<(Seq<Event>, Seq<u32>)>
    decreases n,
{
    if n <= 1 {
        Some((Seq::empty(), Seq::empty()))
    } else {
        match parse_upto(s, fst, n - 1) {
            None => None,
            Some(st) => {
                let closed = close_dirs(st.0, st.1, n - 1);
                read_entry(s, fst, n - 1, closed.0, closed.1)
            },
        }
    }
}

/// `n` `PopDir` events.
pub open spec fn pops(n: nat) -> Seq<Event> {
    Seq::new(n, |k: int| Event::PopDir)
}

/// Whether the header of the table at `fst` and its entries lie within `s`.
pub open spec fn table_in_bounds(s: Seq<u8>, fst: int) -> bool {
    &&& fst + 12 <= s.len()
    &&& fst + 12 * be32(s, fst + 8) <= s.len()
}

/// The events of the table that starts at `fst` in `s`, or `None` where it
/// is malformed.
pub open spec fn parse_spec(s: Seq<u8>, fst: int) -> Option<Seq<Event>> {
    if !table_in_bounds(s, fst) {
        None
    } else {
        match parse_upto(s, fst, be32(s, fst + 8) as int) {
            None => None,
            Some(st) => Some(st.0 + pops(st.1.len())),
        }
    }
}

/// Open directories end after `i` and no later than any directory they sit in.
pub open spec fn open_ok(open: Seq<u32>, i: int, count: u32) -> bool {
    &&& forall|k: int| 0 <= k < open.len() ==> i <= #[trigger] open[k] <= count
    &&& forall|k: int, l: int|
        #![trigger open[k], open[l]]
        0 <= k < l < open.len() ==> open[l] <= open[k]
}

proof fn lemma_close_dirs(ev: Seq<Event>, open: Seq<u32>, i: int, count: u32)
    requires
        open_ok(open, i, count),
    ensures
        open_ok(close_dirs(ev, open, i).1, i + 1, count),
        close_dirs(ev, open, i).1.len() > 0 ==> close_dirs(ev, open, i).1.last() > i,
    decreases open.len(),
{
    if open.len() > 0 && open.last() == i {
        lemma_close_dirs(ev.push(Event::PopDir), open.drop_last(), i, count);
    } else if open.len() > 0 {
        assert forall|k: int| 0 <= k < open.len() implies i + 1 <= open[k] by {
            assert(open[open.len() - 1] <= open[k] || k == open.len() - 1);
        }
    }
}

proof fn lemma_parse_fails_on(s: Seq<u8>, fst: int, n: int, m: int)
    requires
        1 <= n <= m,
        parse_upto(s, fst, n) is None,
    ensures
        parse_upto(s, fst, m) is None,
    decreases m - n,
{
    if n < m {
        lemma_parse_fails_on(s, fst, n, m - 1);
    }
}

/// Closes the open directories that end at entry `i`.
fn close_ending_dirs(events: &mut Vec<FsEntry>, stack: &mut Vec<u32>, i: u32, count: u32)
    requires
        open_ok(old(stack)@, i as int, count),
    ensures
        (events_of(final(events)@), final(stack)@) == close_dirs(
            events_of(old(events)@),
            old(stack)@,
            i as int,
        ),
        open_ok(final(stack)@, i + 1, count),
        final(stack)@.len() > 0 ==> final(stack)@.last() > i,
{
    let ghost ev0 = events_of(events@);
    let ghost st0 = stack@;
    proof {
        lemma_close_dirs(ev0, st0, i as int, count);
    }
    while stack.len() > 0 && stack[stack.len() - 1] == i
        invariant
            close_dirs(ev0, st0, i as int) == close_dirs(events_of(events@), stack@, i as int),
            open_ok(stack@, i as int, count),
        decreases stack.len(),
    {
        let ghost before = events_of(events@);
        stack.pop();
        events.push(FsEntry::PopDir);
        assert(events_of(events@) =~= before.push(Event::PopDir));
        assert(open_ok(stack@, i as int, count));
    }
}

/// Reads entry `i` of the table at `fst` and records it.
fn read_one_entry(
    buf: &[u8],
    fst: usize,
    count: u32,
    i: u32,
    events: &mut Vec<FsEntry>,
    stack: &mut Vec<u32>,
) -> (ok: bool)
    requires
        1 <= i < count,
        count == be32(buf@, fst + 8),
        fst + 12 * count <= buf@.len(),
        open_ok(old(stack)@, i + 1, count),
        old(stack)@.len() > 0 ==> old(stack)@.last() > i,
    ensures
        ok ==> read_entry(buf@, fst as int, i as int, events_of(old(events)@), old(stack)@) == Some(
            (events_of(final(events)@), final(stack)@),
        ),
        !ok ==> read_entry(buf@, fst as int, i as int, events_of(old(events)@), old(stack)@) is None,
        open_ok(final(stack)@, i + 1, count),
{
    let len = buf.len();
    let pool = fst + 12 * (count as usize);
    let e: usize = fst + 12 * (i as usize);
    let name_off: usize = (buf[e + 1] as usize) * 0x10000 + (buf[e + 2] as usize) * 0x100 + (
    buf[e + 3] as usize);
    assert(name_off == name_offset_at(buf@, e as int));
    if name_off >= len - pool {
        return false;
    }
    let name = match read_name(buf, pool + name_off) {
        Some(n) => n,
        None => {
            return false;
        },
    };
    let ghost before = events_of(events@);
    if buf[e] == 0 {
        let offset = word_at(buf, e + 4);
        let size = word_at(buf, e + 8);
        events.push(FsEntry::File { name, offset, size });
        assert(events_of(events@) =~= before.push(Event::File(name@, offset, size)));
    } else {
        let next = word_at(buf, e + 8);
        let bound = if stack.len() > 0 {
            stack[stack.len() - 1]
        } else {
            count
        };
        if !(i < next && next <= bound) {
            return false;
        }
        stack.push(next);
        events.push(FsEntry::PushDir { name });
        assert(events_of(events@) =~= before.push(Event::PushDir(name@)));
        assert(open_ok(stack@, i + 1, count));
    }
    true
}

/// Parses the file string table that starts at `fst_offset` in `buf` into
/// its events.
pub fn parse_fst(buf: &[u8], fst_offset: usize) -> (r: Option<Vec<FsEntry>>)
    ensures
        r matches Some(fs) ==> parse_spec(buf@, fst_offset as int) == Some(events_of(fs@)),
        r is None ==> parse_spec(buf@, fst_offset as int) is None,
{
    let len = buf.len();
    if fst_offset >= len || len - fst_offset < 12 {
        return None;
    }
    let fst = fst_offset;
    let count = word_at(buf, fst + 8);
    if 12 * (count as u64) > (len - fst) as u64 {
        return None;
    }
    let mut events: Vec<FsEntry> = Vec::new();
    let mut stack: Vec<u32> = Vec::new();
    if count <= 1 {
        assert(events_of(events@) + pops(0) =~= Seq::<Event>::empty());
        return Some(events);
    }
    let mut i: u32 = 1;
    while i < count
        invariant
            1 <= i <= count,
            fst == fst_offset,
            len == buf@.len(),
            count == be32(buf@, fst + 8),
            fst + 12 * count <= len,
            table_in_bounds(buf@, fst as int),
            parse_upto(buf@, fst as int, i as int) == Some((events_of(events@), stack@)),
            open_ok(stack@, i as int, count),
        decreases count - i,
    {
        close_ending_dirs(&mut events, &mut stack, i, count);
        let ghost closed = (events_of(events@), stack@);
        assert(parse_upto(buf@, fst as int, i + 1) == read_entry(
            buf@,
            fst as int,
            i as int,
            closed.0,
            closed.1,
        ));
        if !read_one_entry(buf, fst, count, i, &mut events, &mut stack) {
            proof {
                lemma_parse_fails_on(buf@, fst as int, i + 1, count as int);
            }
            return None;
        }
        i = i + 1;
    }
    let ghost done = events_of(events@);
    let ghost open_len = stack@.len();
    while stack.len() > 0
        invariant
            events_of(events@) + pops(stack@.len()) =~= done + pops(open_len),
        decreases stack.len(),
    {
        let ghost before = events_of(events@);
        stack.pop();
        events.push(FsEntry::PopDir);
        assert(events_of(events@) =~= before.push(Event::PopDir));
    }
    assert(events_of(events@) =~= events_of(events@) + pops(0));
    Some(events)
}

// ---------------------------------------------------------------------------
// writing

/// The table being written: its entries so far (the root's placeholder
/// first), its string pool, the indices of the directories still open, and
/// the number of entries.
pub struct TocState {
    pub entries: Seq<u8>,
    pub pool: Seq<u8>,
    pub open: Seq<u32>,
    pub count: nat,
}

/// The table before any event: the root's placeholder alone.
pub open spec fn toc_init() -> TocState {
    TocState { entries: Seq::new(12, |k: int| 0u8), pool: Seq::empty(), open: Seq::empty(), count: 1 }
}

/// Whether `name` and its NUL still fit in a string pool that holds `pool`.
pub open spec fn name_fits(pool: Seq<u8>, name: Seq<u8>) -> bool {
    pool.len() + name.len() + 1 <= MAX_STRING_POOL
}

/// The index of the directory that new entries go into: the innermost one
/// open, or the root.
pub open spec fn parent_index(open: Seq<u32>) -> u32 {
    if open.len() > 0 {
        open.last()
    } else {
        0
    }
}

/// Writes one event; a directory's next index is written when it closes.
pub open spec fn toc_step(st: TocState, e: Event) -> Option<TocState> {
    match e {
        Event::PopDir => if st.open.len() == 0 {
            Some(st)
        } else {
            Some(
                TocState {
                    entries: put_be32(st.entries, 12 * st.open.last() + 8, st.count as u32),
                    open: st.open.drop_last(),
                    ..st
                },
            )
        },
        Event::File(name, offset, size) => if !name_fits(st.pool, name) {
            None
        } else {
            Some(
                TocState {
                    entries: st.entries + be_bytes(st.pool.len() as u32) + be_bytes(offset)
                        + be_bytes(size),
                    pool: st.pool + name + seq![0u8],
                    open: st.open,
                    count: st.count + 1,
                },
            )
        },
        Event::PushDir(name) => if !name_fits(st.pool, name) {
            None
        } else {
            Some(
                TocState {
                    entries: st.entries + seq![1u8] + be_bytes(st.pool.len() as u32).subrange(1, 4)
                        + be_bytes(parent_index(st.open)) + be_bytes(0),
                    pool: st.pool + name + seq![0u8],
                    open: st.open.push(st.count as u32),
                    count: st.count + 1,
                },
            )
        },
    }
}

/// The table after the first `k` events, or `None` where the pool overflows.
pub open spec fn toc_upto(ev: Seq<Event>, k: int) -> Option<TocState>
    decreases k,
{
    if k <= 0 {
        Some(toc_init())
    } else {
        match toc_upto(ev, k - 1) {
            None => None,
            Some(st) => toc_step(st, ev[k - 1]),
        }
    }
}

/// Writes the next index `count` into each directory still open.
pub open spec fn close_all(entries: Seq<u8>, open: Seq<u32>, count: u32) -> Seq<u8>
    decreases open.len(),
{
    if open.len() == 0 {
        entries
    } else {
        close_all(put_be32(entries, 12 * open.last() + 8, count), open.drop_last(), count)
    }
}

/// The root entry of a table of `count` entries.
pub open spec fn root_entry(count: u32) -> Seq<u8> {
    seq![1u8, 0u8, 0u8, 0u8, 0u8, 0u8, 0u8, 0u8] + be_bytes(count)
}

/// The file string table written from `ev`: the root entry, an entry for
/// each directory and file in order, then the string pool; `None` where the
/// names do not fit in the pool.
pub open spec fn toc_spec(ev: Seq<Event>) -> Option<Seq<u8>> {
    match toc_upto(ev, ev.len() as int) {
        None => None,
        Some(st) => {
            let closed = close_all(st.entries, st.open, st.count as u32);
            Some(root_entry(st.count as u32) + closed.subrange(12, closed.len() as int) + st.pool)
        },
    }
}

/// What holds of the table while it is written.
pub open spec fn toc_state_ok(st: TocState) -> bool {
    &&& st.entries.len() == 12 * st.count
    &&& 1 <= st.count <= st.pool.len() + 1
    &&& st.pool.len() <= MAX_STRING_POOL
    &&& forall|k: int| 0 <= k < st.open.len() ==> #[trigger] st.open[k] < st.count
}

// ---------------------------------------------------------------------------
// the next indices of a written table

/// Whether the directories of table bytes `t` close where they may: each
/// directory entry `i` has a next index above `i` and at most the number of
/// entries.
pub open spec fn next_indices_ok(t: Seq<u8>) -> bool {
    let n = be32(t, 8);
    &&& 12 * n <= t.len()
    &&& forall|i: int| 1 <= i < n && #[trigger] t[12 * i] != 0 ==> i < be32(t, 12 * i + 8) <= n
    &&& forall|i: int, j: int|
        1 <= i < j < n && #[trigger] t[12 * i] != 0 && #[trigger] t[12 * j] != 0 && j < be32(t, 12 * i + 8)
            ==> i <= be32(t, 12 * j + 4) < be32(t, 12 * i + 8)
}

/// While a table is written: directories closed so far close where they may,
/// those still open are directories, distinct, in order of their indices.
pub open spec fn dirs_ok(st: TocState) -> bool {
    &&& forall|i: int|
        1 <= i < st.count && #[trigger] st.entries[12 * i] != 0 && !st.open.contains(i as u32) ==> i
            < be32(st.entries, 12 * i + 8) <= st.count
    &&& forall|k: int| 0 <= k < st.open.len() ==> 1 <= #[trigger] st.open[k] && st.entries[12 * st.open[k]] != 0
    &&& forall|k: int, l: int| 0 <= k < l < st.open.len() ==> #[trigger] st.open[k] < #[trigger] st.open[l]
}

/// While a table is written: each directory's parent comes before it, lies
/// at or below every directory open around it, and within every closed
/// directory that holds it.
pub open spec fn parents_ok(st: TocState) -> bool {
    &&& forall|j: int| 1 <= j < st.count && #[trigger] st.entries[12 * j] != 0 ==> be32(st.entries, 12 * j + 4) < j
    &&& forall|k: int, j: int|
        0 <= k < st.open.len() && #[trigger] st.open[k] < j < st.count && #[trigger] st.entries[12 * j] != 0 ==> st.open[k]
            <= be32(st.entries, 12 * j + 4)
    &&& forall|i: int, j: int|
        1 <= i < j < st.count && #[trigger] st.entries[12 * i] != 0 && #[trigger] st.entries[12 * j] != 0
            && !st.open.contains(i as u32) && j < be32(st.entries, 12 * i + 8) ==> i <= be32(
            st.entries,
            12 * j + 4,
        )
}

pub proof fn lemma_put_be32_frame(s: Seq<u8>, off: int, n: u32)
    requires
        0 <= off,
        off + 4 <= s.len(),
    ensures
        put_be32(s, off, n).len() == s.len(),
        forall|x: int| 0 <= x < s.len() && (x < off || x >= off + 4) ==> #[trigger] put_be32(s, off, n)[x] == s[x],
        be32(put_be32(s, off, n), off) == n,
{
    let t = put_be32(s, off, n);
    assert(t.subrange(off, off + 4) =~= be_bytes(n));
    crate::bytes::lemma_be32_of_bytes(t, off, n);
}

pub proof fn lemma_be32_same(s: Seq<u8>, t: Seq<u8>, off: int)
    requires
        0 <= off,
        off + 4 <= s.len(),
        off + 4 <= t.len(),
        forall|x: int| off <= x < off + 4 ==> s[x] == t[x],
    ensures
        be32(s, off) == be32(t, off),
{
    assert(s[off] == t[off]);
    assert(s[off + 1] == t[off + 1]);
    assert(s[off + 2] == t[off + 2]);
    assert(s[off + 3] == t[off + 3]);
}

#[verifier::rlimit(60)]
proof fn lemma_pop_parents(st: TocState)
    requires
        toc_state_ok(st),
        dirs_ok(st),
        parents_ok(st),
        st.open.len() > 0,
    ensures
        parents_ok(toc_step(st, Event::PopDir)->0),
{
    let st2 = toc_step(st, Event::PopDir)->0;
    let d = st.open.last();
    lemma_put_be32_frame(st.entries, 12 * d + 8, st.count as u32);
    assert forall|j: int| 1 <= j < st2.count && #[trigger] st2.entries[12 * j] != 0 implies be32(
        st2.entries,
        12 * j + 4,
    ) < j by {
        assert(st2.entries[12 * j] == st.entries[12 * j]);
        lemma_be32_same(st.entries, st2.entries, 12 * j + 4);
    }
    assert forall|k: int, j: int|
        0 <= k < st2.open.len() && #[trigger] st2.open[k] < j < st2.count && #[trigger] st2.entries[12
            * j] != 0 implies st2.open[k] <= be32(st2.entries, 12 * j + 4) by {
        assert(st2.open[k] == st.open[k]);
        assert(st2.entries[12 * j] == st.entries[12 * j]);
        lemma_be32_same(st.entries, st2.entries, 12 * j + 4);
    }
    assert forall|i: int, j: int|
        1 <= i < j < st2.count && #[trigger] st2.entries[12 * i] != 0 && #[trigger] st2.entries[12 * j]
            != 0 && !st2.open.contains(i as u32) && j < be32(st2.entries, 12 * i + 8) implies i <= be32(
        st2.entries,
        12 * j + 4,
    ) by {
        assert(st2.entries[12 * i] == st.entries[12 * i]);
        assert(st2.entries[12 * j] == st.entries[12 * j]);
        lemma_be32_same(st.entries, st2.entries, 12 * j + 4);
        if i == d {
            assert(st.open[st.open.len() - 1] == i as u32);
        } else {
            lemma_be32_same(st.entries, st2.entries, 12 * i + 8);
            if st.open.contains(i as u32) {
                let k = choose|k: int| 0 <= k < st.open.len() && st.open[k] == i as u32;
                assert(st2.open[k] == i as u32);
            }
        }
    }
}

#[verifier::rlimit(60)]
proof fn lemma_file_parents(st: TocState, name: Seq<u8>, offset: u32, size: u32)
    requires
        toc_state_ok(st),
        dirs_ok(st),
        parents_ok(st),
        toc_step(st, Event::File(name, offset, size)) is Some,
    ensures
        parents_ok(toc_step(st, Event::File(name, offset, size))->0),
{
    let st2 = toc_step(st, Event::File(name, offset, size))->0;
    let rec = be_bytes(st.pool.len() as u32) + be_bytes(offset) + be_bytes(size);
    assert(st2.entries =~= st.entries + rec);
    assert(st2.entries[12 * st.count as int] == be_bytes(st.pool.len() as u32)[0]);
    assert forall|j: int| 1 <= j < st2.count && #[trigger] st2.entries[12 * j] != 0 implies be32(
        st2.entries,
        12 * j + 4,
    ) < j by {
        if j < st.count {
            assert(st2.entries[12 * j] == st.entries[12 * j]);
            lemma_be32_same(st.entries, st2.entries, 12 * j + 4);
        }
    }
    assert forall|k: int, j: int|
        0 <= k < st2.open.len() && #[trigger] st2.open[k] < j < st2.count && #[trigger] st2.entries[12
            * j] != 0 implies st2.open[k] <= be32(st2.entries, 12 * j + 4) by {
        if j < st.count {
            assert(st2.entries[12 * j] == st.entries[12 * j]);
            lemma_be32_same(st.entries, st2.entries, 12 * j + 4);
        }
    }
    assert forall|i: int, j: int|
        1 <= i < j < st2.count && #[trigger] st2.entries[12 * i] != 0 && #[trigger] st2.entries[12 * j]
            != 0 && !st2.open.contains(i as u32) && j < be32(st2.entries, 12 * i + 8) implies i <= be32(
        st2.entries,
        12 * j + 4,
    ) by {
        if j < st.count {
            assert(st2.entries[12 * i] == st.entries[12 * i]);
            assert(st2.entries[12 * j] == st.entries[12 * j]);
            lemma_be32_same(st.entries, st2.entries, 12 * j + 4);
            lemma_be32_same(st.entries, st2.entries, 12 * i + 8);
        }
    }
}

#[verifier::rlimit(60)]
proof fn lemma_dir_parents(st: TocState, name: Seq<u8>)
    requires
        toc_state_ok(st),
        dirs_ok(st),
        parents_ok(st),
        toc_step(st, Event::PushDir(name)) is Some,
    ensures
        parents_ok(toc_step(st, Event::PushDir(name))->0),
{
    let st2 = toc_step(st, Event::PushDir(name))->0;
    let p = parent_index(st.open);
    let rec = seq![1u8] + be_bytes(st.pool.len() as u32).subrange(1, 4) + be_bytes(p) + be_bytes(0);
    assert(st2.entries =~= st.entries + rec);
    let c = st.count as int;
    assert(st2.entries.subrange(12 * c + 4, 12 * c + 8) =~= be_bytes(p));
    crate::bytes::lemma_be32_of_bytes(st2.entries, 12 * c + 4, p);
    if st.open.len() > 0 {
        assert(st.open[st.open.len() - 1] < st.count);
    }
    assert forall|j: int| 1 <= j < st2.count && #[trigger] st2.entries[12 * j] != 0 implies be32(
        st2.entries,
        12 * j + 4,
    ) < j by {
        if j < st.count {
            assert(st2.entries[12 * j] == st.entries[12 * j]);
            lemma_be32_same(st.entries, st2.entries, 12 * j + 4);
        }
    }
    assert forall|k: int, j: int|
        0 <= k < st2.open.len() && #[trigger] st2.open[k] < j < st2.count && #[trigger] st2.entries[12
            * j] != 0 implies st2.open[k] <= be32(st2.entries, 12 * j + 4) by {
        if j < st.count {
            assert(st2.open[k] == st.open[k]);
            assert(st2.entries[12 * j] == st.entries[12 * j]);
            lemma_be32_same(st.entries, st2.entries, 12 * j + 4);
        } else if k < st.open.len() {
            assert(st2.open[k] == st.open[k]);
            assert(st.open[k] <= st.open[st.open.len() - 1]) by {
                if k < st.open.len() - 1 {
                    assert(st.open[k] < st.open[st.open.len() - 1]);
                }
            }
        }
    }
    assert forall|i: int, j: int|
        1 <= i < j < st2.count && #[trigger] st2.entries[12 * i] != 0 && #[trigger] st2.entries[12 * j]
            != 0 && !st2.open.contains(i as u32) && j < be32(st2.entries, 12 * i + 8) implies i <= be32(
        st2.entries,
        12 * j + 4,
    ) by {
        assert(st2.entries[12 * i] == st.entries[12 * i]);
        lemma_be32_same(st.entries, st2.entries, 12 * i + 8);
        if j < st.count {
            assert(st2.entries[12 * j] == st.entries[12 * j]);
            lemma_be32_same(st.entries, st2.entries, 12 * j + 4);
            if st.open.contains(i as u32) {
                let k = choose|k: int| 0 <= k < st.open.len() && st.open[k] == i as u32;
                assert(st2.open[k] == i as u32);
            }
        } else {
            if !st.open.contains(i as u32) {
                assert(be32(st.entries, 12 * i + 8) <= st.count);
                assert(false);
            }
            let k = choose|k: int| 0 <= k < st.open.len() && st.open[k] == i as u32;
            assert(st.open[k] <= st.open[st.open.len() - 1]) by {
                if k < st.open.len() - 1 {
                    assert(st.open[k] < st.open[st.open.len() - 1]);
                }
            }
        }
    }
}

/// One written event keeps the parents in order.
proof fn lemma_toc_step_parents(st: TocState, e: Event)
    requires
        toc_state_ok(st),
        dirs_ok(st),
        parents_ok(st),
        toc_step(st, e) is Some,
    ensures
        parents_ok(toc_step(st, e)->0),
{
    match e {
        Event::PopDir => if st.open.len() > 0 {
            lemma_pop_parents(st);
        },
        Event::File(name, offset, size) => lemma_file_parents(st, name, offset, size),
        Event::PushDir(name) => lemma_dir_parents(st, name),
    }
}

/// One written event keeps the directories in order.
#[verifier::rlimit(40)]
proof fn lemma_toc_step_dirs(st: TocState, e: Event)
    requires
        toc_state_ok(st),
        dirs_ok(st),
        toc_step(st, e) is Some,
    ensures
        dirs_ok(toc_step(st, e)->0),
{
    let st2 = toc_step(st, e)->0;
    match e {
        Event::PopDir => {
            if st.open.len() > 0 {
                let d = st.open.last();
                lemma_put_be32_frame(st.entries, 12 * d + 8, st.count as u32);
                assert forall|i: int|
                    1 <= i < st2.count && #[trigger] st2.entries[12 * i] != 0 && !st2.open.contains(
                        i as u32,
                    ) implies i < be32(st2.entries, 12 * i + 8) <= st2.count by {
                    assert(st2.entries[12 * i] == st.entries[12 * i]);
                    if i == d {
                    } else {
                        lemma_be32_same(st.entries, st2.entries, 12 * i + 8);
                        if st.open.contains(i as u32) {
                            let k = choose|k: int| 0 <= k < st.open.len() && st.open[k] == i as u32;
                            assert(st2.open[k] == i as u32);
                        }
                    }
                }
                assert forall|k: int| 0 <= k < st2.open.len() implies 1 <= #[trigger] st2.open[k]
                    && st2.entries[12 * st2.open[k]] != 0 by {
                    assert(st2.open[k] == st.open[k]);
                    assert(st.open[k] < d);
                }
            }
        },
        Event::File(name, offset, size) => {
            let rec = be_bytes(st.pool.len() as u32) + be_bytes(offset) + be_bytes(size);
            assert(st2.entries =~= st.entries + rec);
            assert(st2.entries[12 * st.count as int] == be_bytes(st.pool.len() as u32)[0]);
            assert forall|i: int|
                1 <= i < st2.count && #[trigger] st2.entries[12 * i] != 0 && !st2.open.contains(
                    i as u32,
                ) implies i < be32(st2.entries, 12 * i + 8) <= st2.count by {
                if i < st.count {
                    assert(st2.entries[12 * i] == st.entries[12 * i]);
                    lemma_be32_same(st.entries, st2.entries, 12 * i + 8);
                }
            }
            assert forall|k: int| 0 <= k < st2.open.len() implies 1 <= #[trigger] st2.open[k]
                && st2.entries[12 * st2.open[k]] != 0 by {
                assert(st.open[k] < st.count);
                assert(st2.entries[12 * st.open[k]] == st.entries[12 * st.open[k]]);
            }
        },
        Event::PushDir(name) => {
            let rec = seq![1u8] + be_bytes(st.pool.len() as u32).subrange(1, 4) + be_bytes(
                parent_index(st.open),
            ) + be_bytes(0);
            assert(st2.entries =~= st.entries + rec);
            assert(st2.entries[12 * st.count as int] == 1);
            assert forall|i: int|
                1 <= i < st2.count && #[trigger] st2.entries[12 * i] != 0 && !st2.open.contains(
                    i as u32,
                ) implies i < be32(st2.entries, 12 * i + 8) <= st2.count by {
                if i < st.count {
                    assert(st2.entries[12 * i] == st.entries[12 * i]);
                    lemma_be32_same(st.entries, st2.entries, 12 * i + 8);
                    if st.open.contains(i as u32) {
                        let k = choose|k: int| 0 <= k < st.open.len() && st.open[k] == i as u32;
                        assert(st2.open[k] == i as u32);
                    }
                } else {
                    assert(st2.open[st.open.len() as int] == i as u32);
                }
            }
            assert forall|k: int| 0 <= k < st2.open.len() implies 1 <= #[trigger] st2.open[k]
                && st2.entries[12 * st2.open[k]] != 0 by {
                if k < st.open.len() {
                    assert(st.open[k] < st.count);
                    assert(st2.entries[12 * st.open[k]] == st.entries[12 * st.open[k]]);
                }
            }
            assert forall|k: int, l: int| 0 <= k < l < st2.open.len() implies #[trigger] st2.open[k]
                < #[trigger] st2.open[l] by {
                assert(st.open[k] < st.count);
            }
        },
    }
}

pub proof fn lemma_toc_upto_dirs(ev: Seq<Event>, k: int)
    requires
        0 <= k <= ev.len(),
    ensures
        toc_upto(ev, k) is Some ==> dirs_ok(toc_upto(ev, k)->0),
    decreases k,
{
    if k > 0 {
        lemma_toc_upto_dirs(ev, k - 1);
        lemma_toc_upto_ok(ev, k - 1);
        if toc_upto(ev, k) is Some {
            lemma_toc_step_dirs(toc_upto(ev, k - 1)->0, ev[k - 1]);
        }
    }
}

pub proof fn lemma_toc_upto_parents(ev: Seq<Event>, k: int)
    requires
        0 <= k <= ev.len(),
    ensures
        toc_upto(ev, k) is Some ==> parents_ok(toc_upto(ev, k)->0),
    decreases k,
{
    if k > 0 {
        lemma_toc_upto_parents(ev, k - 1);
        lemma_toc_upto_dirs(ev, k - 1);
        lemma_toc_upto_ok(ev, k - 1);
        if toc_upto(ev, k) is Some {
            lemma_toc_step_parents(toc_upto(ev, k - 1)->0, ev[k - 1]);
        }
    }
}

/// Closing the directories still open leaves every directory closed where
/// it may.
proof fn lemma_close_all_dirs(st: TocState)
    requires
        toc_state_ok(st),
        dirs_ok(st),
        parents_ok(st),
        st.count <= u32::MAX,
    ensures
        ({
            let c = close_all(st.entries, st.open, st.count as u32);
            &&& c.len() == st.entries.len()
            &&& forall|i: int| 1 <= i < st.count && #[trigger] c[12 * i] != 0 ==> i < be32(c, 12 * i + 8) <= st.count
            &&& forall|j: int| 1 <= j < st.count && #[trigger] c[12 * j] != 0 ==> be32(c, 12 * j + 4) < j
            &&& forall|i: int, j: int|
                1 <= i < j < st.count && #[trigger] c[12 * i] != 0 && #[trigger] c[12 * j] != 0 && j < be32(
                    c,
                    12 * i + 8,
                ) ==> i <= be32(c, 12 * j + 4)
        }),
    decreases st.open.len(),
{
    if st.open.len() == 0 {
        assert forall|i: int| 1 <= i < st.count && #[trigger] st.entries[12 * i] != 0 implies i < be32(
            st.entries,
            12 * i + 8,
        ) <= st.count by {
            assert(!st.open.contains(i as u32));
        }
        assert forall|i: int, j: int|
            1 <= i < j < st.count && #[trigger] st.entries[12 * i] != 0 && #[trigger] st.entries[12 * j]
                != 0 && j < be32(st.entries, 12 * i + 8) implies i <= be32(st.entries, 12 * j + 4) by {
            assert(!st.open.contains(i as u32));
        }
    } else {
        let st2 = toc_step(st, Event::PopDir)->0;
        let d = st.open.last();
        assert(d < st.count);
        lemma_put_be32_frame(st.entries, 12 * d + 8, st.count as u32);
        assert forall|k: int| 0 <= k < st2.open.len() implies #[trigger] st2.open[k] < st2.count by {
            assert(st2.open[k] == st.open[k]);
        }
        lemma_toc_step_dirs(st, Event::PopDir);
        lemma_pop_parents(st);
        lemma_close_all_dirs(st2);
    }
}

/// The bytes of a table after its root entry are those of its entries.
pub proof fn lemma_table_bytes(t: Seq<u8>, c: Seq<u8>, pool: Seq<u8>, count: u32)
    requires
        c.len() == 12 * count,
        count >= 1,
        t == root_entry(count) + c.subrange(12, c.len() as int) + pool,
    ensures
        be32(t, 8) == count,
        12 * count <= t.len(),
        forall|x: int| 12 <= x < c.len() ==> #[trigger] t[x] == c[x],
{
    assert(t.subrange(8, 12) =~= be_bytes(count));
    crate::bytes::lemma_be32_of_bytes(t, 8, count);
}

/// What holds of the entries of a written table, before its root entry is
/// put in.
proof fn lemma_closed_entries(ev: Seq<Event>)
    requires
        toc_upto(ev, ev.len() as int) is Some,
    ensures
        ({
            let st = toc_upto(ev, ev.len() as int)->0;
            let c = close_all(st.entries, st.open, st.count as u32);
            &&& c.len() == 12 * st.count
            &&& 1 <= st.count <= u32::MAX
            &&& forall|i: int| 1 <= i < st.count && #[trigger] c[12 * i] != 0 ==> i < be32(c, 12 * i + 8) <= st.count
            &&& forall|j: int| 1 <= j < st.count && #[trigger] c[12 * j] != 0 ==> be32(c, 12 * j + 4) < j
            &&& forall|i: int, j: int|
                1 <= i < j < st.count && #[trigger] c[12 * i] != 0 && #[trigger] c[12 * j] != 0 && j < be32(
                    c,
                    12 * i + 8,
                ) ==> i <= be32(c, 12 * j + 4)
        }),
{
    lemma_toc_upto_ok(ev, ev.len() as int);
    lemma_toc_upto_dirs(ev, ev.len() as int);
    lemma_toc_upto_parents(ev, ev.len() as int);
    lemma_close_all_dirs(toc_upto(ev, ev.len() as int)->0);
}

/// The next index of every directory of a written table lies above the
/// directory's own index and at most at the number of entries, and every
/// directory within its range has its parent there too.
pub proof fn lemma_written_table_consistent(ev: Seq<Event>)
    requires
        toc_spec(ev) is Some,
    ensures
        next_indices_ok(toc_spec(ev)->0),
{
    lemma_closed_entries(ev);
    let st = toc_upto(ev, ev.len() as int)->0;
    let c = close_all(st.entries, st.open, st.count as u32);
    let t = toc_spec(ev)->0;
    lemma_table_bytes(t, c, st.pool, st.count as u32);
    assert forall|i: int| 1 <= i < be32(t, 8) && #[trigger] t[12 * i] != 0 implies i < be32(t, 12 * i + 8)
        <= be32(t, 8) by {
        assert(t[12 * i] == c[12 * i]);
        lemma_be32_same(t, c, 12 * i + 8);
    }
    assert forall|i: int, j: int|
        1 <= i < j < be32(t, 8) && #[trigger] t[12 * i] != 0 && #[trigger] t[12 * j] != 0 && j < be32(
            t,
            12 * i + 8,
        ) implies i <= be32(t, 12 * j + 4) < be32(t, 12 * i + 8) by {
        assert(t[12 * i] == c[12 * i]);
        assert(t[12 * j] == c[12 * j]);
        lemma_be32_same(t, c, 12 * i + 8);
        lemma_be32_same(t, c, 12 * j + 4);
    }
}

/// Whether two event lists differ at most in the offsets and sizes of files.
pub open spec fn same_shape(a: Seq<Event>, b: Seq<Event>) -> bool {
    &&& a.len() == b.len()
    &&& forall|i: int|
        0 <= i < a.len() ==> match (#[trigger] a[i], b[i]) {
            (Event::PushDir(x), Event::PushDir(y)) => x == y,
            (Event::PopDir, Event::PopDir) => true,
            (Event::File(x, _, _), Event::File(y, _, _)) => x == y,
            _ => false,
        }
}

/// The states of the table written so far are well formed.
pub proof fn lemma_toc_upto_ok(ev: Seq<Event>, k: int)
    requires
        0 <= k <= ev.len(),
    ensures
        toc_upto(ev, k) is Some ==> toc_state_ok(toc_upto(ev, k)->0),
    decreases k,
{
    if k > 0 {
        lemma_toc_upto_ok(ev, k - 1);
        if let Some(st) = toc_upto(ev, k - 1) {
            if let Event::PopDir = ev[k - 1] {
                if st.open.len() > 0 {
                    let st2 = toc_upto(ev, k)->0;
                    assert(st.open[st.open.len() - 1] < st.count);
                    assert forall|j: int| 0 <= j < st2.open.len() implies #[trigger] st2.open[j] < st2.count by {
                        assert(st2.open[j] == st.open[j]);
                    }
                }
            } else {
                let st2 = toc_upto(ev, k)->0;
                if toc_upto(ev, k) is Some {
                    assert forall|j: int| 0 <= j < st2.open.len() implies #[trigger] st2.open[j] < st2.count by {
                        if j < st.open.len() {
                            assert(st2.open[j] == st.open[j]);
                        }
                    }
                }
            }
        }
    }
}

/// One step keeps two tables of the same shape alike but for their bytes.
proof fn lemma_toc_step_same_shape(x: TocState, y: TocState, e: Event, f: Event)
    requires
        x.entries.len() == y.entries.len(),
        x.pool == y.pool,
        x.open == y.open,
        x.count == y.count,
        toc_state_ok(x),
        toc_state_ok(y),
        match (e, f) {
            (Event::PushDir(n), Event::PushDir(m)) => n == m,
            (Event::PopDir, Event::PopDir) => true,
            (Event::File(n, _, _), Event::File(m, _, _)) => n == m,
            _ => false,
        },
    ensures
        toc_step(x, e) is Some <==> toc_step(y, f) is Some,
        toc_step(x, e) is Some ==> {
            let (a, b) = (toc_step(x, e)->0, toc_step(y, f)->0);
            &&& a.entries.len() == b.entries.len()
            &&& a.pool == b.pool
            &&& a.open == b.open
            &&& a.count == b.count
        },
{
}

/// The table's length does not depend on where the payloads lie.
pub proof fn lemma_toc_len_same_shape(a: Seq<Event>, b: Seq<Event>, k: int)
    requires
        same_shape(a, b),
        0 <= k <= a.len(),
    ensures
        toc_upto(a, k) is Some <==> toc_upto(b, k) is Some,
        toc_upto(a, k) is Some ==> {
            let (x, y) = (toc_upto(a, k)->0, toc_upto(b, k)->0);
            &&& x.entries.len() == y.entries.len()
            &&& x.pool == y.pool
            &&& x.open == y.open
            &&& x.count == y.count
        },
    decreases k,
{
    if k > 0 {
        lemma_toc_len_same_shape(a, b, k - 1);
        lemma_toc_upto_ok(a, k - 1);
        lemma_toc_upto_ok(b, k - 1);
        let _ = a[k - 1];
        if toc_upto(a, k - 1) is Some {
            lemma_toc_step_same_shape(toc_upto(a, k - 1)->0, toc_upto(b, k - 1)->0, a[k - 1], b[k - 1]);
        }
    }
}

/// Tables written from lists of the same shape have the same length.
pub proof fn lemma_toc_spec_len(a: Seq<Event>, b: Seq<Event>)
    requires
        same_shape(a, b),
        toc_spec(a) is Some,
    ensures
        toc_spec(b) is Some,
        toc_spec(a)->0.len() == toc_spec(b)->0.len(),
{
    lemma_toc_len_same_shape(a, b, a.len() as int);
    lemma_toc_upto_ok(a, a.len() as int);
    lemma_toc_upto_ok(b, b.len() as int);
    let x = toc_upto(a, a.len() as int)->0;
    let y = toc_upto(b, b.len() as int)->0;
    lemma_close_all_len(x.entries, x.open, x.count as u32);
    lemma_close_all_len(y.entries, y.open, y.count as u32);
}

pub proof fn lemma_close_all_len(entries: Seq<u8>, open: Seq<u32>, count: u32)
    requires
        entries.len() >= 12,
        forall|j: int| 0 <= j < open.len() ==> 12 * (#[trigger] open[j]) + 12 <= entries.len(),
    ensures
        close_all(entries, open, count).len() == entries.len(),
    decreases open.len(),
{
    if open.len() > 0 {
        let e2 = put_be32(entries, 12 * open.last() + 8, count);
        assert(e2.len() == entries.len());
        lemma_close_all_len(e2, open.drop_last(), count);
    }
}

pub proof fn lemma_toc_fails_on(ev: Seq<Event>, n: int, m: int)
    requires
        0 <= n <= m,
        toc_upto(ev, n) is None,
    ensures
        toc_upto(ev, m) is None,
    decreases m - n,
{
    if n < m {
        lemma_toc_fails_on(ev, n, m - 1);
    }
}

/// The table being written, as held in memory.
struct TocWriter {
    entries: Vec<u8>,
    pool: Vec<u8>,
    open: Vec<u32>,
    count: u32,
}

impl View for TocWriter {
    type V = TocState;

    closed spec fn view(&self) -> TocState {
        TocState { entries: self.entries@, pool: self.pool@, open: self.open@, count: self.count as nat }
    }
}

/// Closes the innermost open directory.
fn write_pop(w: &mut TocWriter)
    requires
        toc_state_ok(old(w)@),
    ensures
        toc_step(old(w)@, Event::PopDir) == Some(final(w)@),
        toc_state_ok(final(w)@),
{
    if w.open.len() > 0 {
        let d = w.open.pop().unwrap();
        write_u32(&mut w.entries, 12 * d + 8, w.count);
    }
}

/// Appends `name` and its NUL to the pool.
fn add_name(pool: &mut Vec<u8>, name: &Vec<u8>)
    ensures
        final(pool)@ == old(pool)@ + name@ + seq![0u8],
{
    extend_bytes(pool, name.as_slice());
    pool.push(0u8);
}

/// The record of a file entry.
fn file_record(name_off: u32, offset: u32, size: u32) -> (r: Vec<u8>)
    ensures
        r@ == be_bytes(name_off) + be_bytes(offset) + be_bytes(size),
{
    let mut r: Vec<u8> = Vec::new();
    push_be32(&mut r, name_off);
    push_be32(&mut r, offset);
    push_be32(&mut r, size);
    assert(r@ =~= be_bytes(name_off) + be_bytes(offset) + be_bytes(size));
    r
}

/// The record of a directory entry whose next index is still to come.
fn dir_record(name_off: u32, parent: u32) -> (r: Vec<u8>)
    ensures
        r@ == seq![1u8] + be_bytes(name_off).subrange(1, 4) + be_bytes(parent) + be_bytes(0),
{
    let mut r: Vec<u8> = Vec::new();
    r.push(1u8);
    r.push(((name_off / 0x10000) % 0x100) as u8);
    r.push(((name_off / 0x100) % 0x100) as u8);
    r.push((name_off % 0x100) as u8);
    push_be32(&mut r, parent);
    push_be32(&mut r, 0);
    assert(r@ =~= seq![1u8] + be_bytes(name_off).subrange(1, 4) + be_bytes(parent) + be_bytes(0));
    r
}

/// Writes a file's entry.
fn write_file(w: &mut TocWriter, name: &Vec<u8>, offset: u32, size: u32) -> (ok: bool)
    requires
        toc_state_ok(old(w)@),
    ensures
        ok ==> toc_step(old(w)@, Event::File(name@, offset, size)) == Some(final(w)@),
        !ok ==> toc_step(old(w)@, Event::File(name@, offset, size)) is None,
        toc_state_ok(final(w)@),
{
    if name.len() >= MAX_STRING_POOL - w.pool.len() {
        return false;
    }
    let off = w.pool.len() as u32;
    let rec = file_record(off, offset, size);
    extend_bytes(&mut w.entries, rec.as_slice());
    add_name(&mut w.pool, name);
    w.count = w.count + 1;
    assert(w.entries@ =~= old(w).entries@ + be_bytes(off) + be_bytes(offset) + be_bytes(size));
    true
}

/// Writes a directory's entry, its next index left for `write_pop`.
fn write_dir(w: &mut TocWriter, name: &Vec<u8>) -> (ok: bool)
    requires
        toc_state_ok(old(w)@),
    ensures
        ok ==> toc_step(old(w)@, Event::PushDir(name@)) == Some(final(w)@),
        !ok ==> toc_step(old(w)@, Event::PushDir(name@)) is None,
        toc_state_ok(final(w)@),
{
    if name.len() >= MAX_STRING_POOL - w.pool.len() {
        return false;
    }
    let parent: u32 = if w.open.len() > 0 {
        w.open[w.open.len() - 1]
    } else {
        0
    };
    let off = w.pool.len() as u32;
    let rec = dir_record(off, parent);
    extend_bytes(&mut w.entries, rec.as_slice());
    assert(w.entries@ =~= old(w).entries@ + seq![1u8] + be_bytes(off).subrange(1, 4) + be_bytes(
        parent,
    ) + be_bytes(0));
    add_name(&mut w.pool, name);
    w.open.push(w.count);
    w.count = w.count + 1;
    assert(w.open@ =~= old(w)@.open.push(old(w)@.count as u32));
    true
}

/// Writes one event.
fn write_event(w: &mut TocWriter, e: &FsEntry) -> (ok: bool)
    requires
        toc_state_ok(old(w)@),
    ensures
        ok ==> toc_step(old(w)@, e@) == Some(final(w)@),
        !ok ==> toc_step(old(w)@, e@) is None,
        toc_state_ok(final(w)@),
{
    match e {
        FsEntry::PopDir => {
            write_pop(w);
            true
        },
        FsEntry::File { name, offset, size } => write_file(w, name, *offset, *size),
        FsEntry::PushDir { name } => write_dir(w, name),
    }
}

/// Writes the file string table for the events `fs`: the root entry, one
/// entry for each directory and file, and the string pool. `None` where the
/// names do not fit in a pool of `MAX_STRING_POOL` bytes.
pub fn write_toc(fs: &[FsEntry]) -> (r: Option<Vec<u8>>)
    ensures
        r matches Some(t) ==> toc_spec(events_of(fs@)) == Some(t@) && next_indices_ok(t@),
        r is None ==> toc_spec(events_of(fs@)) is None,
{
    let ghost ev = events_of(fs@);
    let mut entries: Vec<u8> = Vec::new();
    let mut j: usize = 0;
    while j < 12
        invariant
            j <= 12,
            entries@ == Seq::new(j as nat, |k: int| 0u8),
        decreases 12 - j,
    {
        entries.push(0u8);
        j = j + 1;
        assert(entries@ =~= Seq::new(j as nat, |k: int| 0u8));
    }
    let mut w = TocWriter { entries, pool: Vec::new(), open: Vec::new(), count: 1 };
    assert(w@ == toc_init());
    let mut k: usize = 0;
    while k < fs.len()
        invariant
            k <= fs@.len(),
            ev == events_of(fs@),
            toc_upto(ev, k as int) == Some(w@),
            toc_state_ok(w@),
        decreases fs@.len() - k,
    {
        if !write_event(&mut w, &fs[k]) {
            proof {
                lemma_toc_fails_on(ev, k + 1, ev.len() as int);
            }
            return None;
        }
        k = k + 1;
    }
    let TocWriter { mut entries, pool, mut open, count } = w;
    let ghost last = TocState { entries: entries@, pool: pool@, open: open@, count: count as nat };
    while open.len() > 0
        invariant
            close_all(entries@, open@, count) == close_all(last.entries, last.open, count),
            entries@.len() == 12 * count,
            forall|k: int| 0 <= k < open@.len() ==> #[trigger] open@[k] < count,
            count as nat == last.count,
            count as nat <= MAX_STRING_POOL + 1,
        decreases open.len(),
    {
        let d = open.pop().unwrap();
        write_u32(&mut entries, 12 * d + 8, count);
    }
    let mut toc: Vec<u8> = Vec::new();
    toc.push(1u8);
    let mut j: usize = 0;
    while j < 7
        invariant
            j <= 7,
            toc@ == seq![1u8] + Seq::new(j as nat, |k: int| 0u8),
        decreases 7 - j,
    {
        toc.push(0u8);
        j = j + 1;
        assert(toc@ =~= seq![1u8] + Seq::new(j as nat, |k: int| 0u8));
    }
    push_be32(&mut toc, count);
    assert(toc@ =~= root_entry(count));
    let ghost head = toc@;
    let mut j: usize = 12;
    while j < entries.len()
        invariant
            12 <= j <= entries@.len(),
            toc@ == head + entries@.subrange(12, j as int),
        decreases entries@.len() - j,
    {
        toc.push(entries[j]);
        j = j + 1;
        assert(toc@ =~= head + entries@.subrange(12, j as int));
    }
    extend_bytes(&mut toc, pool.as_slice());
    proof {
        lemma_written_table_consistent(ev);
    }
    Some(toc)
}

} // verus!
