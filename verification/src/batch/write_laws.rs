//! When a batch is written, and where.
use vstd::prelude::*;

use crate::artifact::pool::ChunkView;
use crate::batch::array::{flat_buffers_all, flat_nodes_all, plans_refusal, ArrayView};
use crate::batch::layout::{aligned, payload_at};
use crate::batch::pack::{each_fits, lemma_used, place, reach, used};
use crate::batch::write::{
    allot, batch_refusal, batch_sizes, end_in_one, longest_of, pick, single_len,
};

verus! {

/// `r` is the smallest multiple of 64 that is at least `x`.
pub open spec fn is_next_line(x: int, r: int) -> bool {
    x <= r < x + 64 && r % 64 == 0
}

/// Alignment is to lines of 64 bytes, up and no further.
pub proof fn aligned_is_next_line(x: int)
    ensures
        is_next_line(x, aligned(x)),
{
}

proof fn lemma_reach(b: Seq<Seq<u8>>, start: int, cap: int, i: int)
    requires
        0 <= i < b.len(),
    ensures
        reach(b, start, cap, i + 1) == (
            place(b, start, cap, i).0,
            place(b, start, cap, i).1 + b[i].len(),
        ),
{
}

/// Where buffers go. The first starts on the line behind the tables, in the first
/// chunk, if it fits there. Each other starts on the line behind the one before,
/// in the same chunk, if it fits there; else at the start of the next chunk. So
/// none overlaps another, no chunk is opened without need, and every buffer
/// starts on a line.
pub proof fn where_buffers_go(b: Seq<Seq<u8>>, nodes: int, cap: int, i: int)
    requires
        nodes >= 0,
        each_fits(b, cap),
        payload_at(nodes, b.len() as int) <= cap,
        0 <= i < b.len(),
    ensures
        ({
            let start = payload_at(nodes, b.len() as int);
            let p = place(b, start, cap, i);
            let end = if i == 0 {
                32 + 24 * nodes + 12 * b.len()
            } else {
                place(b, start, cap, i - 1).1 + b[i - 1].len()
            };
            let chunk = if i == 0 {
                0
            } else {
                place(b, start, cap, i - 1).0
            };
            &&& p.1 + b[i].len() <= cap
            &&& p.1 % 64 == 0
            &&& p == (chunk, p.1) && is_next_line(end, p.1) || p == (chunk + 1, 0int) && forall|at: int|
                #[trigger] is_next_line(end, at) ==> at + b[i].len() > cap
        }),
    decreases i,
{
    let n = b.len() as int;
    let start = payload_at(nodes, n);
    let e = 32 + 24 * nodes + 12 * n;
    aligned_is_next_line(e);
    assert(aligned(start) == start);
    let end = if i == 0 {
        e
    } else {
        place(b, start, cap, i - 1).1 + b[i - 1].len()
    };
    if i > 0 {
        where_buffers_go(b, nodes, cap, i - 1);
        lemma_reach(b, start, cap, i - 1);
    }
    aligned_is_next_line(end);
    assert forall|at: int| #[trigger] is_next_line(end, at) implies at == aligned(end) by {}
}

/// A batch is written, as far as its own size goes, wherever its arrays are
/// planned, there is room for the tables and a line, no buffer is longer than a
/// chunk, and its rows can be counted.
pub proof fn what_is_packed(cols: Seq<ArrayView>, rows: int, cap: int)
    requires
        0 <= rows <= u32::MAX,
        plans_refusal(cols) is None,
        32 + 24 * flat_nodes_all(cols).len() + 12 * flat_buffers_all(cols).len() + 63 <= cap,
        forall|i: int|
            0 <= i < flat_buffers_all(cols).len() ==> (#[trigger] flat_buffers_all(cols)[i]).len() <= cap,
    ensures
        batch_refusal(cols, rows, cap) is None,
{
    aligned_is_next_line(
        (32 + 24 * flat_nodes_all(cols).len() + 12 * flat_buffers_all(cols).len()) as int,
    );
}

/// And a batch with a buffer longer than a chunk, or whose tables do not fit in
/// one, never is.
pub proof fn what_is_not_packed(cols: Seq<ArrayView>, rows: int, cap: int)
    requires
        32 + 24 * flat_nodes_all(cols).len() + 12 * flat_buffers_all(cols).len() > cap || exists|i: int|
            0 <= i < flat_buffers_all(cols).len() && (#[trigger] flat_buffers_all(cols)[i]).len() > cap,
    ensures
        batch_refusal(cols, rows, cap) is Some,
{
    aligned_is_next_line(
        (32 + 24 * flat_nodes_all(cols).len() + 12 * flat_buffers_all(cols).len()) as int,
    );
}

// ---- chunks ----

/// The pool hands out a chunk wherever a free one is long enough: the shortest of
/// these, and of equally short ones the first.
pub proof fn which_chunk_is_handed_out(p: Seq<ChunkView>, size: int, j: int)
    ensures
        0 <= j < p.len() && !p[j].allocated && p[j].len >= size ==> pick(p, size) is Some,
        pick(p, size) matches Some(k) ==> {
            &&& 0 <= k < p.len()
            &&& !p[k].allocated
            &&& p[k].len >= size
            &&& 0 <= j < p.len() && !p[j].allocated && p[j].len >= size ==> p[k].len < p[j].len || (
            p[k].len == p[j].len && k <= j)
        },
{
    if 0 <= j < p.len() && !p[j].allocated && p[j].len >= size {
        let k = lemma_shortest(p, size, j, p.len() as int);
        assert(crate::artifact::pool::best_fit(p, k, size));
    }
    if let Some(k) = pick(p, size) {
        assert(crate::artifact::pool::best_fit(p, k, size));
        assert(crate::artifact::pool::fits(p[k], size));
        if 0 <= j < p.len() && !p[j].allocated && p[j].len >= size {
            assert(crate::artifact::pool::fits(p[j], size));
        }
    }
}

/// The best of the first `n` chunks, of which one fits.
proof fn lemma_shortest(p: Seq<ChunkView>, size: int, j: int, n: int) -> (k: int)
    requires
        0 <= j < n <= p.len(),
        !p[j].allocated,
        p[j].len >= size,
    ensures
        0 <= k < n,
        crate::artifact::pool::fits(p[k], size),
        forall|i: int|
            0 <= i < n && crate::artifact::pool::fits(#[trigger] p[i], size) ==> p[k].len < p[i].len || (
            p[k].len == p[i].len && k <= i),
    decreases n,
{
    if exists|i: int| 0 <= i < n - 1 && crate::artifact::pool::fits(#[trigger] p[i], size) {
        let i = choose|i: int| 0 <= i < n - 1 && crate::artifact::pool::fits(#[trigger] p[i], size);
        let k = lemma_shortest(p, size, i, n - 1);
        if crate::artifact::pool::fits(p[n - 1], size) && p[n - 1].len < p[k].len {
            n - 1
        } else {
            k
        }
    } else {
        assert(j == n - 1) by {
            if j < n - 1 {
                assert(crate::artifact::pool::fits(p[j], size));
            }
        }
        j
    }
}

/// Chunks for several sizes are handed out one after the other, each out of what
/// is still free.
pub proof fn chunks_are_handed_out_in_turn(p: Seq<ChunkView>, sizes: Seq<int>, size: int)
    ensures
        allot(p, Seq::<int>::empty()) == Some((Seq::<int>::empty(), p)),
        ({
            let (ks, q) = allot(p, sizes)->Some_0;
            &&& allot(p, sizes) is None ==> allot(p, sizes.push(size)) is None
            &&& allot(p, sizes) is Some ==> match pick(q, size) {
                None => allot(p, sizes.push(size)) is None,
                Some(k) => allot(p, sizes.push(size)) == Some(
                    (ks.push(k), q.update(k, ChunkView { allocated: true, ..q[k] })),
                ),
            }
        }),
{
    assert(sizes.push(size).drop_last() =~= sizes);
}

// ---- how much is used ----

/// How much of a chunk is used: up to the end of the last buffer in it. There are as many
/// chunks as it takes to come to the last buffer, and one for the tables, which is used up
/// to their end if it has no buffer.
pub proof fn how_much_of_a_chunk_is_used(b: Seq<Seq<u8>>, start: int, cap: int, n: int, i: int)
    requires
        0 <= start <= cap,
        each_fits(b, cap),
        0 <= n <= b.len(),
    ensures
        ({
            let u = used(b, start, cap, n);
            &&& n == 0 ==> u == seq![start]
            &&& n > 0 ==> u.len() == place(b, start, cap, n - 1).0 + 1
            &&& n > 0 && place(b, start, cap, 0).0 == 1 ==> u[0] == start
            &&& 0 <= i < n && (i == n - 1 || place(b, start, cap, i + 1).0 != place(b, start, cap, i).0)
                ==> u[place(b, start, cap, i).0] == place(b, start, cap, i).1 + b[i].len()
        }),
    decreases n,
{
    lemma_used(b, start, cap, n);
    if n > 0 {
        how_much_of_a_chunk_is_used(b, start, cap, n - 1, i);
        lemma_used(b, start, cap, n - 1);
        lemma_reach(b, start, cap, n - 1);
        if 0 <= i < n - 1 {
            lemma_reach(b, start, cap, i);
            if i == n - 2 {
                how_much_of_a_chunk_is_used(b, start, cap, n - 1, n - 2);
            }
            lemma_places_ascend(b, start, cap, i, n - 1);
            lemma_places_ascend(b, start, cap, i + 1, n - 1);
            lemma_places_ascend(b, start, cap, i, i + 1);
        }
        lemma_places_ascend(b, start, cap, 0, n - 1);
    }
}

proof fn lemma_places_ascend(b: Seq<Seq<u8>>, start: int, cap: int, i: int, j: int)
    requires
        0 <= i <= j < b.len(),
    ensures
        0 <= place(b, start, cap, i).0 <= place(b, start, cap, j).0,
    decreases j,
{
    if i < j {
        lemma_places_ascend(b, start, cap, i, j - 1);
        lemma_reach(b, start, cap, j - 1);
    } else if j > 0 {
        lemma_places_ascend(b, start, cap, j - 1, j - 1);
        lemma_reach(b, start, cap, j - 1);
    }
}

proof fn lemma_in_one(b: Seq<Seq<u8>>, start: int, cap: int, i: int)
    requires
        start >= 0,
        0 <= i <= b.len(),
        end_in_one(b, start, i) <= cap,
    ensures
        reach(b, start, cap, i) == (0int, end_in_one(b, start, i)),
        used(b, start, cap, i) == seq![end_in_one(b, start, i)],
        start <= end_in_one(b, start, i),
    decreases i,
{
    if i > 0 {
        lemma_end_grows(b, start, i - 1);
        aligned_is_next_line(end_in_one(b, start, i - 1));
        lemma_in_one(b, start, cap, i - 1);
        assert(used(b, start, cap, i) =~= seq![end_in_one(b, start, i)]);
    }
}

proof fn lemma_end_grows(b: Seq<Seq<u8>>, start: int, i: int)
    requires
        start >= 0,
        0 <= i < b.len(),
    ensures
        end_in_one(b, start, i) <= end_in_one(b, start, i + 1),
{
    aligned_is_next_line(end_in_one(b, start, i));
}

/// The length of a batch is how much it takes in one chunk: it takes one chunk, and just
/// so much of it, wherever that is long enough.
pub proof fn how_long_a_batch_is(cols: Seq<ArrayView>, cap: int)
    requires
        single_len(cols) <= cap,
    ensures
        batch_sizes(cols, cap) == seq![single_len(cols)],
        single_len(cols) >= 32 + 24 * flat_nodes_all(cols).len() + 12 * flat_buffers_all(cols).len(),
{
    let b = flat_buffers_all(cols);
    let e = 32 + 24 * flat_nodes_all(cols).len() + 12 * b.len();
    let start = payload_at(flat_nodes_all(cols).len() as int, b.len() as int);
    aligned_is_next_line(e as int);
    lemma_in_one(b, start, cap, b.len() as int);
}

/// The longest chunk is one of the pool, and none is longer.
pub proof fn which_chunk_is_the_longest(p: Seq<ChunkView>, j: int)
    requires
        0 <= j < p.len(),
    ensures
        p[j].len <= longest_of(p),
        exists|k: int| 0 <= k < p.len() && #[trigger] p[k].len == longest_of(p),
    decreases p.len(),
{
    let d = p.drop_last();
    if d.len() > 0 {
        which_chunk_is_the_longest(d, if j < d.len() {
            j
        } else {
            0
        });
        let k = choose|k: int| 0 <= k < d.len() && #[trigger] d[k].len == longest_of(d);
        assert(p[k].len == longest_of(d));
    } else {
        assert(longest_of(d) == 0);
    }
    assert(p[p.len() - 1].len == p.last().len);
}

} // verus!
