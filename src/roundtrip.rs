//! Reading back a written file string table gives the events it was written
//! from.

use crate::bytes::{be32, be_bytes, put_be32};
use crate::edit::depth;
use crate::fst::{
    close_all, close_dirs, dir_end_bound, first_nul, lemma_table_bytes, lemma_written_table_consistent,
    name_at, name_offset_at, parent_index, parse_spec, parse_upto, pops, read_entry, root_entry,
    table_in_bounds, toc_spec, MAX_STRING_POOL, dirs_ok, lemma_be32_same, lemma_put_be32_frame, lemma_toc_fails_on, lemma_toc_upto_dirs,
    lemma_toc_upto_ok, toc_state_ok, toc_step, toc_upto, Event, TocState,
};
use vstd::prelude::*;
use vstd::utf8::valid_utf8;

verus! {

/// The table after the first `k` events, where the whole list can be written.
#[verifier::opaque]
pub open spec fn wst(ev: Seq<Event>, k: int) -> TocState {
    toc_upto(ev, k)->0
}

/// Whether byte `x` lies outside the next-index fields of the directories
/// `open`.
pub open spec fn off_fields(open: Seq<u32>, x: int) -> bool {
    forall|i: int| 0 <= i < open.len() ==> !(12 * (#[trigger] open[i]) + 8 <= x < 12 * open[i] + 12)
}

/// Every prefix of a list that can be written can be written.
pub proof fn lemma_prefix_written(ev: Seq<Event>, k: int)
    requires
        toc_upto(ev, ev.len() as int) is Some,
        0 <= k <= ev.len(),
    ensures
        toc_upto(ev, k) is Some,
        toc_state_ok(wst(ev, k)),
        dirs_ok(wst(ev, k)),
{
    if toc_upto(ev, k) is None {
        lemma_toc_fails_on(ev, k, ev.len() as int);
    }
    lemma_toc_upto_ok(ev, k);
    lemma_toc_upto_dirs(ev, k);
    reveal(wst);
}

/// One step of the writing, in terms of `wst`.
proof fn lemma_wst_step(ev: Seq<Event>, j: int)
    requires
        toc_upto(ev, ev.len() as int) is Some,
        0 < j <= ev.len(),
    ensures
        wst(ev, j) == toc_step(wst(ev, j - 1), ev[j - 1])->0,
        toc_step(wst(ev, j - 1), ev[j - 1]) is Some,
{
    lemma_prefix_written(ev, j);
    lemma_prefix_written(ev, j - 1);
    reveal(wst);
}

/// A byte outside the open next-index fields keeps its value for the rest of
/// the writing.
pub proof fn lemma_frame_suffix(ev: Seq<Event>, k: int, j: int, x: int)
    requires
        toc_upto(ev, ev.len() as int) is Some,
        0 <= k <= j <= ev.len(),
        0 <= x < 12 * wst(ev, k).count,
        off_fields(wst(ev, k).open, x),
    ensures
        wst(ev, j).entries[x] == wst(ev, k).entries[x],
        forall|i: int|
            0 <= i < wst(ev, j).open.len() ==> wst(ev, k).open.contains(#[trigger] wst(ev, j).open[i])
                || wst(ev, j).open[i] >= wst(ev, k).count,
        wst(ev, k).count <= wst(ev, j).count,
    decreases j - k,
{
    lemma_prefix_written(ev, j);
    if j > k {
        lemma_frame_suffix(ev, k, j - 1, x);
        lemma_prefix_written(ev, j - 1);
        let st = wst(ev, j - 1);
        let st2 = wst(ev, j);
        lemma_wst_step(ev, j);
        match ev[j - 1] {
            Event::PopDir => {
                if st.open.len() > 0 {
                    let d = st.open.last();
                    lemma_put_be32_frame(st.entries, 12 * d + 8, st.count as u32);
                    if wst(ev, k).open.contains(d) {
                        let i = choose|i: int| 0 <= i < wst(ev, k).open.len() && wst(ev, k).open[i] == d;
                        assert(!(12 * wst(ev, k).open[i] + 8 <= x < 12 * wst(ev, k).open[i] + 12));
                    }
                    assert forall|i: int| 0 <= i < st2.open.len() implies wst(ev, k).open.contains(
                        #[trigger] st2.open[i],
                    ) || st2.open[i] >= wst(ev, k).count by {
                        assert(st2.open[i] == st.open[i]);
                    }
                }
            },
            Event::File(_, _, _) => {
                assert(st2.entries.subrange(0, st.entries.len() as int) =~= st.entries);
                assert(st2.entries[x] == st2.entries.subrange(0, st.entries.len() as int)[x]);
            },
            Event::PushDir(_) => {
                assert(st2.entries.subrange(0, st.entries.len() as int) =~= st.entries);
                assert(st2.entries[x] == st2.entries.subrange(0, st.entries.len() as int)[x]);
                assert forall|i: int| 0 <= i < st2.open.len() implies wst(ev, k).open.contains(
                    #[trigger] st2.open[i],
                ) || st2.open[i] >= wst(ev, k).count by {
                    if i < st.open.len() {
                        assert(st2.open[i] == st.open[i]);
                    }
                }
            },
        }
    }
}

/// Closing the open directories leaves the other bytes as they are.
pub proof fn lemma_close_all_frame(entries: Seq<u8>, open: Seq<u32>, cnt: u32, x: int)
    requires
        0 <= x < entries.len(),
        off_fields(open, x),
        forall|i: int| 0 <= i < open.len() ==> 12 * (#[trigger] open[i]) + 12 <= entries.len(),
    ensures
        close_all(entries, open, cnt)[x] == entries[x],
        close_all(entries, open, cnt).len() == entries.len(),
    decreases open.len(),
{
    if open.len() > 0 {
        let d = open.last();
        lemma_put_be32_frame(entries, 12 * d + 8, cnt);
        let e2 = put_be32(entries, 12 * d + 8, cnt);
        assert(!(12 * open[open.len() - 1] + 8 <= x < 12 * open[open.len() - 1] + 12));
        assert forall|i: int| 0 <= i < open.drop_last().len() implies 12 * (#[trigger] open.drop_last()[i])
            + 12 <= e2.len() by {
            assert(open.drop_last()[i] == open[i]);
        }
        assert forall|i: int| 0 <= i < open.drop_last().len() implies !(12 * (#[trigger] open.drop_last()[i])
            + 8 <= x < 12 * open.drop_last()[i] + 12) by {
            assert(open.drop_last()[i] == open[i]);
        }
        lemma_close_all_frame(e2, open.drop_last(), cnt, x);
    }
}

/// Closing the open directories writes `cnt` as the next index of each.
pub proof fn lemma_close_all_value(entries: Seq<u8>, open: Seq<u32>, cnt: u32, i: int)
    requires
        0 <= i < open.len(),
        forall|a: int, b: int| 0 <= a < b < open.len() ==> #[trigger] open[a] < #[trigger] open[b],
        forall|a: int| 0 <= a < open.len() ==> 12 * (#[trigger] open[a]) + 12 <= entries.len(),
    ensures
        be32(close_all(entries, open, cnt), 12 * open[i] + 8) == cnt,
    decreases open.len(),
{
    let d = open.last();
    lemma_put_be32_frame(entries, 12 * d + 8, cnt);
    let e2 = put_be32(entries, 12 * d + 8, cnt);
    let rest = open.drop_last();
    assert forall|a: int| 0 <= a < rest.len() implies 12 * (#[trigger] rest[a]) + 12 <= e2.len() by {
        assert(rest[a] == open[a]);
    }
    if i == open.len() - 1 {
        assert forall|a: int| 0 <= a < rest.len() implies !(12 * (#[trigger] rest[a]) + 8 <= 12 * d + 8 + 0
            < 12 * rest[a] + 12) by {
            assert(rest[a] == open[a]);
        }
        let c = close_all(e2, rest, cnt);
        assert forall|y: int| 12 * d + 8 <= y < 12 * d + 12 implies c[y] == e2[y] by {
            assert forall|a: int| 0 <= a < rest.len() implies !(12 * (#[trigger] rest[a]) + 8 <= y < 12
                * rest[a] + 12) by {
                assert(rest[a] == open[a]);
                assert(open[a] < d);
            }
            lemma_close_all_frame(e2, rest, cnt, y);
        }
        lemma_close_all_frame(e2, rest, cnt, 12 * d + 8);
        lemma_be32_same(c, e2, 12 * d + 8);
    } else {
        assert forall|a: int, b: int| 0 <= a < b < rest.len() implies #[trigger] rest[a] < #[trigger] rest[b] by {
            assert(rest[a] == open[a]);
            assert(rest[b] == open[b]);
        }
        assert(rest[i] == open[i]);
        lemma_close_all_value(e2, rest, cnt, i);
    }
}

/// The entries of a written table once the directories still open are closed.
#[verifier::opaque]
pub open spec fn closed_entries(ev: Seq<Event>) -> Seq<u8> {
    let st = wst(ev, ev.len() as int);
    close_all(st.entries, st.open, st.count as u32)
}

/// The next index that directory entry `d` of the written table ends with.
pub open spec fn next_of(ev: Seq<Event>, d: u32) -> u32 {
    be32(closed_entries(ev), 12 * d + 8)
}

/// A byte outside the open next-index fields at `k` ends the writing as it
/// was at `k`.
pub proof fn lemma_frame_final(ev: Seq<Event>, k: int, x: int)
    requires
        toc_upto(ev, ev.len() as int) is Some,
        0 <= k <= ev.len(),
        0 <= x < 12 * wst(ev, k).count,
        off_fields(wst(ev, k).open, x),
    ensures
        closed_entries(ev)[x] == wst(ev, k).entries[x],
        x < closed_entries(ev).len(),
{
    let n = ev.len() as int;
    lemma_frame_suffix(ev, k, n, x);
    lemma_prefix_written(ev, n);
    let st = wst(ev, n);
    assert forall|i: int| 0 <= i < st.open.len() implies !(12 * (#[trigger] st.open[i]) + 8 <= x < 12
        * st.open[i] + 12) by {
        if wst(ev, k).open.contains(st.open[i]) {
            let a = choose|a: int| 0 <= a < wst(ev, k).open.len() && wst(ev, k).open[a] == st.open[i];
            assert(!(12 * wst(ev, k).open[a] + 8 <= x < 12 * wst(ev, k).open[a] + 12));
        }
    }
    assert forall|i: int| 0 <= i < st.open.len() implies 12 * (#[trigger] st.open[i]) + 12 <= st.entries.len() by {
        assert(st.open[i] < st.count);
    }
    lemma_close_all_frame(st.entries, st.open, st.count as u32, x);
    reveal(closed_entries);
}

/// What a `PopDir` does to the table being written.
proof fn lemma_pop_state(ev: Seq<Event>, k: int)
    requires
        toc_upto(ev, ev.len() as int) is Some,
        0 <= k < ev.len(),
        ev[k] is PopDir,
        wst(ev, k).open.len() > 0,
    ensures
        wst(ev, k + 1).entries == put_be32(wst(ev, k).entries, 12 * wst(ev, k).open.last() + 8, wst(ev, k).count as u32),
        wst(ev, k + 1).open == wst(ev, k).open.drop_last(),
        wst(ev, k + 1).count == wst(ev, k).count,
        toc_state_ok(wst(ev, k)),
        dirs_ok(wst(ev, k)),
        toc_state_ok(wst(ev, k + 1)),
        dirs_ok(wst(ev, k + 1)),
{
    lemma_prefix_written(ev, k);
    lemma_prefix_written(ev, k + 1);
    lemma_wst_step(ev, k + 1);
}

/// Bytes at or above a directory's next-index field lie outside the fields
/// of directories with lower indices.
proof fn lemma_off_fields_below(open: Seq<u32>, d: u32, y: int)
    requires
        forall|i: int| 0 <= i < open.len() ==> #[trigger] open[i] < d,
        12 * d + 8 <= y,
    ensures
        off_fields(open, y),
{
    assert forall|i: int| 0 <= i < open.len() implies !(12 * (#[trigger] open[i]) + 8 <= y < 12 * open[i] + 12) by {
        assert(open[i] < d);
    }
}

/// The directory closed by a `PopDir` ends with the number of entries
/// written before it as its next index.
pub proof fn lemma_pop_value(ev: Seq<Event>, k: int)
    requires
        toc_upto(ev, ev.len() as int) is Some,
        0 <= k < ev.len(),
        ev[k] is PopDir,
        wst(ev, k).open.len() > 0,
    ensures
        next_of(ev, wst(ev, k).open.last()) == wst(ev, k).count,
{
    lemma_pop_state(ev, k);
    let st = wst(ev, k);
    let st2 = wst(ev, k + 1);
    let d = st.open.last();
    lemma_put_be32_frame(st.entries, 12 * d + 8, st.count as u32);
    assert(d < st.count);
    assert forall|i: int| 0 <= i < st2.open.len() implies #[trigger] st2.open[i] < d by {
        assert(st2.open[i] == st.open[i]);
    }
    let y = 12 * d + 8;
    lemma_off_fields_below(st2.open, d, y);
    lemma_off_fields_below(st2.open, d, y + 1);
    lemma_off_fields_below(st2.open, d, y + 2);
    lemma_off_fields_below(st2.open, d, y + 3);
    lemma_frame_final(ev, k + 1, y);
    lemma_frame_final(ev, k + 1, y + 1);
    lemma_frame_final(ev, k + 1, y + 2);
    lemma_frame_final(ev, k + 1, y + 3);
    lemma_be32_same(closed_entries(ev), st2.entries, y);
}

/// A directory still open at the end ends with the number of entries as its
/// next index.
pub proof fn lemma_end_value(ev: Seq<Event>, i: int)
    requires
        toc_upto(ev, ev.len() as int) is Some,
        0 <= i < wst(ev, ev.len() as int).open.len(),
    ensures
        next_of(ev, wst(ev, ev.len() as int).open[i]) == wst(ev, ev.len() as int).count,
{
    let st = wst(ev, ev.len() as int);
    lemma_prefix_written(ev, ev.len() as int);
    assert forall|a: int| 0 <= a < st.open.len() implies 12 * (#[trigger] st.open[a]) + 12 <= st.entries.len() by {
        assert(st.open[a] < st.count);
    }
    lemma_close_all_value(st.entries, st.open, st.count as u32, i);
    reveal(closed_entries);
}

/// A directory open at `k` ends with a next index no lower than the number
/// of entries at `k`.
pub proof fn lemma_open_next_at_least(ev: Seq<Event>, k: int, i: int)
    requires
        toc_upto(ev, ev.len() as int) is Some,
        0 <= k <= ev.len(),
        0 <= i < wst(ev, k).open.len(),
    ensures
        next_of(ev, wst(ev, k).open[i]) >= wst(ev, k).count,
    decreases ev.len() - k,
{
    if k == ev.len() {
        lemma_end_value(ev, i);
    } else {
        lemma_wst_step(ev, k + 1);
        lemma_prefix_written(ev, k);
        let st = wst(ev, k);
        let st2 = wst(ev, k + 1);
        match ev[k] {
            Event::PopDir => {
                if i == st.open.len() - 1 {
                    lemma_pop_value(ev, k);
                } else {
                    assert(st2.open[i] == st.open[i]);
                    lemma_open_next_at_least(ev, k + 1, i);
                }
            },
            _ => {
                assert(st2.open[i] == st.open[i]);
                lemma_open_next_at_least(ev, k + 1, i);
            },
        }
    }
}

/// A directory open inside another ends with a next index no higher than
/// the other's.
pub proof fn lemma_nested_next(ev: Seq<Event>, k: int, a: int, b: int)
    requires
        toc_upto(ev, ev.len() as int) is Some,
        0 <= k <= ev.len(),
        0 <= a < b < wst(ev, k).open.len(),
    ensures
        next_of(ev, wst(ev, k).open[b]) <= next_of(ev, wst(ev, k).open[a]),
    decreases ev.len() - k,
{
    if k == ev.len() {
        lemma_end_value(ev, a);
        lemma_end_value(ev, b);
    } else {
        lemma_wst_step(ev, k + 1);
        lemma_prefix_written(ev, k);
        let st = wst(ev, k);
        let st2 = wst(ev, k + 1);
        match ev[k] {
            Event::PopDir => {
                if b == st.open.len() - 1 {
                    lemma_pop_value(ev, k);
                    assert(st2.open[a] == st.open[a]);
                    lemma_open_next_at_least(ev, k + 1, a);
                } else {
                    assert(st2.open[a] == st.open[a]);
                    assert(st2.open[b] == st.open[b]);
                    lemma_nested_next(ev, k + 1, a, b);
                }
            },
            _ => {
                assert(st2.open[a] == st.open[a]);
                assert(st2.open[b] == st.open[b]);
                lemma_nested_next(ev, k + 1, a, b);
            },
        }
    }
}

/// Whether events can be read back as written: no `PopDir` without an open
/// directory, every directory closed, and every name valid UTF-8 without NUL.
pub open spec fn well_nested(ev: Seq<Event>) -> bool {
    &&& forall|j: int| 0 <= j <= ev.len() ==> depth(ev, 0, j) >= 0
    &&& depth(ev, 0, ev.len() as int) == 0
    &&& forall|i: int|
        0 <= i < ev.len() ==> match #[trigger] ev[i] {
            Event::PushDir(n) => (forall|x: int| 0 <= x < n.len() ==> n[x] != 0) && valid_utf8(n),
            Event::File(n, _, _) => (forall|x: int| 0 <= x < n.len() ==> n[x] != 0) && valid_utf8(n),
            Event::PopDir => true,
        }
}

/// The directories open while writing are as many as the depth of the walk.
pub proof fn lemma_open_is_depth(ev: Seq<Event>, k: int)
    requires
        toc_upto(ev, ev.len() as int) is Some,
        well_nested(ev),
        0 <= k <= ev.len(),
    ensures
        wst(ev, k).open.len() == depth(ev, 0, k),
    decreases k,
{
    lemma_prefix_written(ev, k);
    if k == 0 {
        reveal(wst);
    } else {
        lemma_open_is_depth(ev, k - 1);
        lemma_wst_step(ev, k);
        assert(depth(ev, 0, k) >= 0);
    }
}

/// The pool written so far stays at the start of the pool.
proof fn lemma_pool_prefix(ev: Seq<Event>, k: int, j: int)
    requires
        toc_upto(ev, ev.len() as int) is Some,
        0 <= k <= j <= ev.len(),
    ensures
        wst(ev, k).pool.len() <= wst(ev, j).pool.len(),
        wst(ev, j).pool.subrange(0, wst(ev, k).pool.len() as int) == wst(ev, k).pool,
    decreases j - k,
{
    if j > k {
        lemma_pool_prefix(ev, k, j - 1);
        lemma_wst_step(ev, j);
        let pool_then = wst(ev, j - 1).pool;
        let pool_now = wst(ev, j).pool;
        let l = wst(ev, k).pool.len() as int;
        match ev[j - 1] {
            Event::PopDir => {},
            _ => {
                assert(pool_now.subrange(0, pool_then.len() as int) =~= pool_then);
                assert(pool_now.subrange(0, l) =~= pool_then.subrange(0, l));
            },
        }
    } else {
        assert(wst(ev, k).pool.subrange(0, wst(ev, k).pool.len() as int) =~= wst(ev, k).pool);
    }
}

/// A run without NUL followed by a NUL ends where the NUL is.
proof fn lemma_first_nul_at(s: Seq<u8>, start: int, len: int)
    requires
        0 <= start,
        0 <= len,
        start + len < s.len(),
        forall|x: int| start <= x < start + len ==> s[x] != 0,
        s[start + len] == 0,
    ensures
        first_nul(s, start) == start + len,
    decreases len,
{
    if len > 0 {
        lemma_first_nul_at(s, start + 1, len - 1);
    }
}

/// The bytes 1 to 3 of a number below 2^24 give it back.
proof fn lemma_low_bytes(n: u32)
    requires
        n < 0x100_0000,
    ensures
        be_bytes(n)[1] as int * 0x10000 + be_bytes(n)[2] as int * 0x100 + be_bytes(n)[3] as int == n,
{
    assert(((n / 0x10000) % 0x100) * 0x10000 + ((n / 0x100) % 0x100) * 0x100 + n % 0x100 == n) by (bit_vector)
        requires
            n < 0x100_0000,
    ;
}

/// The table written from `ev`.
#[verifier::opaque]
pub open spec fn written(ev: Seq<Event>) -> Seq<u8> {
    toc_spec(ev)->0
}

/// How the written table's bytes relate to its entries and its pool.
pub proof fn lemma_written_bytes(ev: Seq<Event>)
    requires
        toc_spec(ev) is Some,
    ensures
        toc_upto(ev, ev.len() as int) is Some,
        be32(written(ev), 8) == wst(ev, ev.len() as int).count,
        written(ev).len() == 12 * wst(ev, ev.len() as int).count + wst(ev, ev.len() as int).pool.len(),
        closed_entries(ev).len() == 12 * wst(ev, ev.len() as int).count,
        forall|x: int| 12 <= x < closed_entries(ev).len() ==> #[trigger] written(ev)[x] == closed_entries(ev)[x],
        forall|y: int|
            0 <= y < wst(ev, ev.len() as int).pool.len() ==> written(ev)[12 * wst(ev, ev.len() as int).count
                + y] == #[trigger] wst(ev, ev.len() as int).pool[y],
{
    let n = ev.len() as int;
    lemma_prefix_written(ev, n);
    reveal(wst);
    reveal(written);
    reveal(closed_entries);
    let st = wst(ev, n);
    crate::fst::lemma_close_all_len(st.entries, st.open, st.count as u32);
    let c = closed_entries(ev);
    let t = toc_spec(ev)->0;
    assert(t == root_entry(st.count as u32) + c.subrange(12, c.len() as int) + st.pool);
    lemma_table_bytes(t, c, st.pool, st.count as u32);
    assert forall|y: int| 0 <= y < st.pool.len() implies t[12 * st.count + y] == #[trigger] st.pool[y] by {
        assert(t[12 * st.count + y] == (root_entry(st.count as u32) + c.subrange(12, c.len() as int))
            .add(st.pool)[12 * st.count + y]);
    }
}

/// The next indices of the directories `open`.
pub open spec fn nexts(ev: Seq<Event>, open: Seq<u32>) -> Seq<u32> {
    open.map_values(|d: u32| next_of(ev, d))
}

/// The record written for the entry at position `k`, a directory or a file.
#[verifier::opaque]
pub open spec fn record_of(ev: Seq<Event>, k: int) -> Seq<u8> {
    let st = wst(ev, k);
    match ev[k] {
        Event::File(_, o, s) => be_bytes(st.pool.len() as u32) + be_bytes(o) + be_bytes(s),
        _ => seq![1u8] + be_bytes(st.pool.len() as u32).subrange(1, 4) + be_bytes(parent_index(st.open))
            + be_bytes(0),
    }
}

proof fn lemma_off_fields_lt(open: Seq<u32>, m: u32, x: int)
    requires
        forall|i: int| 0 <= i < open.len() ==> #[trigger] open[i] < m,
        12 * m <= x,
    ensures
        off_fields(open, x),
{
    assert forall|i: int| 0 <= i < open.len() implies !(12 * (#[trigger] open[i]) + 8 <= x < 12 * open[i] + 12) by {
        assert(open[i] < m);
    }
}

/// What an entry written at `k` leaves in the table being written.
proof fn lemma_entry_state(ev: Seq<Event>, k: int)
    requires
        toc_upto(ev, ev.len() as int) is Some,
        0 <= k < ev.len(),
        !(ev[k] is PopDir),
    ensures
        wst(ev, k + 1).entries == wst(ev, k).entries + record_of(ev, k),
        wst(ev, k).entries.len() == 12 * wst(ev, k).count,
        wst(ev, k + 1).count == wst(ev, k).count + 1,
        wst(ev, k + 1).pool == wst(ev, k).pool + match ev[k] {
            Event::File(n, _, _) => n,
            Event::PushDir(n) => n,
            Event::PopDir => Seq::empty(),
        } + seq![0u8],
        wst(ev, k).pool.len() + match ev[k] {
            Event::File(n, _, _) => n.len(),
            Event::PushDir(n) => n.len(),
            Event::PopDir => 0,
        } + 1 <= MAX_STRING_POOL,
        ev[k] is File ==> wst(ev, k + 1).open == wst(ev, k).open,
        ev[k] is PushDir ==> wst(ev, k + 1).open == wst(ev, k).open.push(wst(ev, k).count as u32),
        forall|i: int| 0 <= i < wst(ev, k).open.len() ==> #[trigger] wst(ev, k).open[i] < wst(ev, k).count,
        1 <= wst(ev, k).count <= MAX_STRING_POOL + 1,
        record_of(ev, k).len() == 12,
        12 * wst(ev, k).count + 12 <= 12 * wst(ev, ev.len() as int).count,
{
    lemma_wst_step(ev, k + 1);
    lemma_prefix_written(ev, k);
    lemma_prefix_written(ev, k + 1);
    reveal(record_of);
    let st = wst(ev, k);
    match ev[k] {
        Event::File(n, o, sz) => {
            assert(wst(ev, k + 1).entries =~= st.entries + record_of(ev, k));
        },
        Event::PushDir(n) => {
            assert(wst(ev, k + 1).entries =~= st.entries + record_of(ev, k));
        },
        Event::PopDir => {},
    }
    lemma_frame_suffix(ev, k + 1, ev.len() as int, 0);
}

/// The bytes of the record written at `k` stand in the written table, all
/// of a file's and the first eight of a directory's.
#[verifier::rlimit(50)]
proof fn lemma_record_in_table(ev: Seq<Event>, k: int, t: int)
    requires
        toc_spec(ev) is Some,
        0 <= k < ev.len(),
        !(ev[k] is PopDir),
        0 <= t < 12,
        ev[k] is PushDir ==> t < 8,
    ensures
        written(ev)[12 * wst(ev, k).count + t] == record_of(ev, k)[t],
{
    lemma_written_bytes(ev);
    lemma_entry_state(ev, k);
    let st = wst(ev, k);
    let st2 = wst(ev, k + 1);
    let m = st.count as u32;
    assert(m == st.count);
    let x = 12 * m + t;
    if ev[k] is File {
        assert forall|i: int| 0 <= i < st2.open.len() implies #[trigger] st2.open[i] < m by {
            assert(st2.open[i] == st.open[i]);
        }
        lemma_off_fields_lt(st2.open, m, x);
    } else {
        assert forall|i: int| 0 <= i < st2.open.len() implies !(12 * (#[trigger] st2.open[i]) + 8 <= x < 12
            * st2.open[i] + 12) by {
            if i < st.open.len() {
                assert(st2.open[i] == st.open[i]);
                assert(st.open[i] < m);
            }
        }
    }
    lemma_frame_final(ev, k + 1, x);
    let rec = record_of(ev, k);
    assert(st2.entries == st.entries + rec);
    assert(st2.entries[x] == rec[t]);
    assert(written(ev)[x] == closed_entries(ev)[x]);
}

/// The name of an entry, and the name of the one written at `k`.
pub open spec fn name_of_event(e: Event) -> Seq<u8> {
    match e {
        Event::File(n, _, _) => n,
        Event::PushDir(n) => n,
        Event::PopDir => Seq::empty(),
    }
}

/// The entry written at `k` has its flag and name where the reader looks.
proof fn lemma_entry_name(ev: Seq<Event>, k: int)
    requires
        toc_spec(ev) is Some,
        well_nested(ev),
        0 <= k < ev.len(),
        !(ev[k] is PopDir),
    ensures
        (written(ev)[12 * wst(ev, k).count as int] == 0) == (ev[k] is File),
        name_at(
            written(ev),
            12 * be32(written(ev), 8) + name_offset_at(written(ev), 12 * wst(ev, k).count as int),
        ) == Some(name_of_event(ev[k])),
{
    lemma_written_bytes(ev);
    lemma_entry_state(ev, k);
    let st = wst(ev, k);
    let n = ev.len() as int;
    let w = written(ev);
    let m = st.count as int;
    let off = st.pool.len() as int;
    let nm = name_of_event(ev[k]);
    let rec = record_of(ev, k);
    reveal(record_of);
    lemma_record_in_table(ev, k, 0);
    lemma_record_in_table(ev, k, 1);
    lemma_record_in_table(ev, k, 2);
    lemma_record_in_table(ev, k, 3);
    assert(off < 0x100_0000);
    lemma_low_bytes(off as u32);
    if ev[k] is File {
        assert(rec[0] == be_bytes(off as u32)[0]);
        assert(be_bytes(off as u32)[0] == 0);
    }
    assert(rec[1] == be_bytes(off as u32)[1]);
    assert(rec[2] == be_bytes(off as u32)[2]);
    assert(rec[3] == be_bytes(off as u32)[3]);
    assert(name_offset_at(w, 12 * m) == off);
    // the name and its NUL in the final pool
    lemma_pool_prefix(ev, k + 1, n);
    let fin = wst(ev, n).pool;
    let pool_then = wst(ev, k + 1).pool;
    assert(pool_then == st.pool + nm + seq![0u8]);
    let start = 12 * wst(ev, n).count as int + off;
    assert forall|x: int| start <= x < start + nm.len() implies w[x] != 0 by {
        assert(fin.subrange(0, pool_then.len() as int)[x - 12 * wst(ev, n).count] == pool_then[x - 12 * wst(ev, n).count]);
        assert(w[x] == fin[x - 12 * wst(ev, n).count]);
        assert(pool_then[off + (x - start)] == nm[x - start]);
    }
    assert(fin.subrange(0, pool_then.len() as int)[off + nm.len()] == pool_then[off + nm.len()]);
    assert(w[start + nm.len()] == fin[off + nm.len()]);
    lemma_first_nul_at(w, start, nm.len() as int);
    assert(w.subrange(start, start + nm.len()) =~= nm) by {
        assert forall|x: int| 0 <= x < nm.len() implies w.subrange(start, start + nm.len())[x] == nm[x] by {
            assert(fin.subrange(0, pool_then.len() as int)[off + x] == pool_then[off + x]);
            assert(w[start + x] == fin[off + x]);
        }
    }
}

/// The record of a file holds its offset and size after the name offset.
proof fn lemma_file_record(ev: Seq<Event>, k: int)
    requires
        0 <= k < ev.len(),
        ev[k] is File,
    ensures
        ev[k] matches Event::File(_, o, sz) && record_of(ev, k).subrange(4, 8) == be_bytes(o)
            && record_of(ev, k).subrange(8, 12) == be_bytes(sz) && record_of(ev, k).len() == 12,
{
    reveal(record_of);
    if let Event::File(_, o, sz) = ev[k] {
        let r = record_of(ev, k);
        assert(r.subrange(4, 8) =~= be_bytes(o));
        assert(r.subrange(8, 12) =~= be_bytes(sz));
    }
}

/// The fields of a file written at `k`, as the reader finds them.
proof fn lemma_file_fields(ev: Seq<Event>, k: int)
    requires
        toc_spec(ev) is Some,
        0 <= k < ev.len(),
        ev[k] is File,
    ensures
        ev[k] matches Event::File(_, o, sz) && be32(written(ev), 12 * wst(ev, k).count as int + 4) == o
            && be32(written(ev), 12 * wst(ev, k).count as int + 8) == sz,
        nexts(ev, wst(ev, k + 1).open) == nexts(ev, wst(ev, k).open),
{
    lemma_written_bytes(ev);
    lemma_entry_state(ev, k);
    lemma_file_record(ev, k);
    let w = written(ev);
    let m = wst(ev, k).count as int;
    let r = record_of(ev, k);
    lemma_record_in_table(ev, k, 4);
    lemma_record_in_table(ev, k, 5);
    lemma_record_in_table(ev, k, 6);
    lemma_record_in_table(ev, k, 7);
    lemma_record_in_table(ev, k, 8);
    lemma_record_in_table(ev, k, 9);
    lemma_record_in_table(ev, k, 10);
    lemma_record_in_table(ev, k, 11);
    if let Event::File(_, o, sz) = ev[k] {
        assert(w.subrange(12 * m + 4, 12 * m + 8) =~= r.subrange(4, 8));
        assert(w.subrange(12 * m + 8, 12 * m + 12) =~= r.subrange(8, 12));
        crate::bytes::lemma_be32_of_bytes(w, 12 * m + 4, o);
        crate::bytes::lemma_be32_of_bytes(w, 12 * m + 8, sz);
    }
}

/// The next index of a directory written at `k`, as the reader finds it:
/// above its own index, and within the directory around it.
proof fn lemma_dir_next(ev: Seq<Event>, k: int)
    requires
        toc_spec(ev) is Some,
        0 <= k < ev.len(),
        ev[k] is PushDir,
    ensures
        ({
            let m = wst(ev, k).count as int;
            let next = be32(written(ev), 12 * m + 8);
            &&& next == next_of(ev, m as u32)
            &&& m < next <= dir_end_bound(nexts(ev, wst(ev, k).open), be32(written(ev), 8))
            &&& nexts(ev, wst(ev, k + 1).open) == nexts(ev, wst(ev, k).open).push(next)
        }),
{
    lemma_written_bytes(ev);
    lemma_entry_state(ev, k);
    let w = written(ev);
    let st = wst(ev, k);
    let st2 = wst(ev, k + 1);
    let m = st.count as int;
    let last = st2.open.len() - 1;
    assert(st2.open[last] == m as u32);
    lemma_frame_final(ev, k + 1, 0);
    assert(w[12 * m + 8] == closed_entries(ev)[12 * m + 8]);
    assert(w[12 * m + 9] == closed_entries(ev)[12 * m + 9]);
    assert(w[12 * m + 10] == closed_entries(ev)[12 * m + 10]);
    assert(w[12 * m + 11] == closed_entries(ev)[12 * m + 11]);
    lemma_be32_same(w, closed_entries(ev), 12 * m + 8);
    lemma_open_next_at_least(ev, k + 1, last);
    if st.open.len() > 0 {
        lemma_nested_next(ev, k + 1, last - 1, last);
        assert(st2.open[last - 1] == st.open.last());
    } else {
        lemma_written_table_consistent(ev);
        reveal(written);
        lemma_record_in_table(ev, k, 0);
        reveal(record_of);
    }
    assert(nexts(ev, st2.open) =~= nexts(ev, st.open).push(next_of(ev, m as u32)));
}

/// Reading the entry written at `k` gives the event written there, and the
/// next indices of the directories open after it.
proof fn lemma_read_written_entry(ev: Seq<Event>, k: int, prev: Seq<Event>)
    requires
        toc_spec(ev) is Some,
        well_nested(ev),
        0 <= k < ev.len(),
        !(ev[k] is PopDir),
    ensures
        read_entry(written(ev), 0, wst(ev, k).count as int, prev, nexts(ev, wst(ev, k).open)) == Some(
            (prev.push(ev[k]), nexts(ev, wst(ev, k + 1).open)),
        ),
{
    lemma_entry_name(ev, k);
    assert(valid_utf8(name_of_event(ev[k])));
    if ev[k] is File {
        lemma_file_fields(ev, k);
    } else {
        lemma_dir_next(ev, k);
    }
}

/// Closing directories adds `PopDir`s for the directories it drops from the
/// top of the stack.
proof fn lemma_close_dirs_shape(e: Seq<Event>, s: Seq<u32>, i: int)
    ensures
        close_dirs(e, s, i).1.len() <= s.len(),
        close_dirs(e, s, i).0 == e + pops((s.len() - close_dirs(e, s, i).1.len()) as nat),
        close_dirs(e, s, i).1 == s.subrange(0, close_dirs(e, s, i).1.len() as int),
    decreases s.len(),
{
    if s.len() > 0 && s.last() == i {
        lemma_close_dirs_shape(e.push(Event::PopDir), s.drop_last(), i);
        let r = close_dirs(e, s, i);
        assert(r.0 =~= e + pops((s.len() - r.1.len()) as nat));
        assert(r.1 =~= s.subrange(0, r.1.len() as int));
    } else {
        assert(e + pops(0) =~= e);
        assert(s.subrange(0, s.len() as int) =~= s);
    }
}

/// After the first `k` events are written, the reader, once it has closed the
/// directories that end at the current entry, stands where the writer does.
proof fn lemma_reader_follows(ev: Seq<Event>, k: int)
    requires
        toc_spec(ev) is Some,
        well_nested(ev),
        0 <= k <= ev.len(),
    ensures
        parse_upto(written(ev), 0, wst(ev, k).count as int) is Some,
        ({
            let a = parse_upto(written(ev), 0, wst(ev, k).count as int)->0;
            close_dirs(a.0, a.1, wst(ev, k).count as int) == close_dirs(
                ev.subrange(0, k),
                nexts(ev, wst(ev, k).open),
                wst(ev, k).count as int,
            )
        }),
    decreases k,
{
    lemma_written_bytes(ev);
    lemma_prefix_written(ev, k);
    if k == 0 {
        reveal(wst);
        assert(ev.subrange(0, 0) =~= Seq::<Event>::empty());
        assert(nexts(ev, wst(ev, 0).open) =~= Seq::<u32>::empty());
    } else {
        lemma_reader_follows(ev, k - 1);
        lemma_wst_step(ev, k);
        lemma_prefix_written(ev, k - 1);
        let st = wst(ev, k - 1);
        let st2 = wst(ev, k);
        let m = st.count as int;
        let a = parse_upto(written(ev), 0, m)->0;
        assert(ev.subrange(0, k) =~= ev.subrange(0, k - 1).push(ev[k - 1]));
        if ev[k - 1] is PopDir {
            lemma_open_is_depth(ev, k - 1);
            lemma_open_is_depth(ev, k);
            assert(depth(ev, 0, k) >= 0);
            lemma_pop_value(ev, k - 1);
            let ns = nexts(ev, st.open);
            assert(ns.last() == m as u32);
            assert(nexts(ev, st2.open) =~= ns.drop_last());
        } else {
            lemma_entry_state(ev, k - 1);
            let ns = nexts(ev, st.open);
            if st.open.len() > 0 {
                let top = st.open.len() - 1;
                assert(st2.open[top] == st.open[top]);
                lemma_open_next_at_least(ev, k, top);
            }
            assert(close_dirs(ev.subrange(0, k - 1), ns, m) == (ev.subrange(0, k - 1), ns));
            lemma_read_written_entry(ev, k - 1, ev.subrange(0, k - 1));
            assert(parse_upto(written(ev), 0, m + 1) == read_entry(
                written(ev),
                0,
                m,
                close_dirs(a.0, a.1, m).0,
                close_dirs(a.0, a.1, m).1,
            ));
        }
    }
}

/// Reading back a written file string table gives the events it was written
/// from, for events that close every directory they open, close none they
/// did not open, and name everything in UTF-8 without a NUL.
pub proof fn lemma_read_back_written(ev: Seq<Event>)
    requires
        well_nested(ev),
        toc_spec(ev) is Some,
    ensures
        parse_spec(toc_spec(ev)->0, 0) == Some(ev),
{
    let n = ev.len() as int;
    lemma_written_bytes(ev);
    lemma_reader_follows(ev, n);
    lemma_open_is_depth(ev, n);
    lemma_prefix_written(ev, n);
    let st = wst(ev, n);
    let w = written(ev);
    let a = parse_upto(w, 0, st.count as int)->0;
    assert(nexts(ev, st.open) =~= Seq::<u32>::empty());
    assert(ev.subrange(0, n) =~= ev);
    assert(close_dirs(ev, Seq::<u32>::empty(), st.count as int) == (ev, Seq::<u32>::empty()));
    lemma_close_dirs_shape(a.0, a.1, st.count as int);
    assert(a.0 + pops(a.1.len()) == ev);
    assert(table_in_bounds(w, 0));
    reveal(written);
}

} // verus!
