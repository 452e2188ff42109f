//! Laying out a pool.
use vstd::prelude::*;

use crate::artifact::error::Error;
use crate::artifact::pool::{
    held, listings, Chunk, ChunkPool, ChunkState, ChunkView, OWNER_NONE, POOL_BASE,
};
use crate::chunk::ChunkDesc;

verus! {

/// Some number of chunks of one size.
#[derive(Clone, Copy, Debug, PartialEq, Eq, Structural)]
pub struct SizeClass {
    pub chunk_size: u32,
    pub chunk_count: u32,
}

/// The chunks a pool is made of.
#[derive(Debug)]
pub struct PoolConfig {
    pub classes: Vec<SizeClass>,
}

/// The sizes of all chunks, class by class.
pub open spec fn sizes(classes: Seq<SizeClass>) -> Seq<u32>
    decreases classes.len(),
{
    if classes.len() == 0 {
        seq![]
    } else {
        sizes(classes.drop_last()) + Seq::new(
            classes.last().chunk_count as nat,
            |i: int| classes.last().chunk_size,
        )
    }
}

/// The sum of the sizes.
pub open spec fn total_size(s: Seq<u32>) -> int
    decreases s.len(),
{
    if s.len() == 0 {
        0
    } else {
        total_size(s.drop_last()) + s.last()
    }
}

/// A chunk nobody used yet.
pub open spec fn new_chunk(len: u32) -> ChunkView {
    ChunkView {
        len,
        state: ChunkState::Free,
        refcount: 0,
        owner: OWNER_NONE,
        generation: 0,
        allocated: false,
        bytes: Seq::new(len as nat, |i: int| 0u8),
        story: None,
    }
}

/// A new pool: each size in its place, nothing used.
pub open spec fn new_pool(pool: &ChunkPool, segment_id: u32, s: Seq<u32>) -> bool {
    &&& pool.segment_id == segment_id
    &&& pool@ == Seq::new(s.len(), |i: int| new_chunk(s[i]))
    &&& pool.lay@ == Seq::new(s.len(), |i: int| (POOL_BASE + total_size(s.take(i))) as u32)
}

/// `min` doubled `n` times.
pub open spec fn doubled(min: int, n: nat) -> int
    decreases n,
{
    if n == 0 {
        min
    } else {
        2 * doubled(min, (n - 1) as nat)
    }
}

fn zeros(n: u32) -> (v: Vec<u8>)
    ensures
        v@ == Seq::new(n as nat, |i: int| 0u8),
{
    let mut v: Vec<u8> = Vec::new();
    let mut i: u32 = 0;
    while i < n
        invariant
            i <= n,
            v@ == Seq::new(i as nat, |k: int| 0u8),
        decreases n - i,
    {
        v.push(0);
        proof {
            assert(v@ =~= Seq::new((i + 1) as nat, |k: int| 0u8));
        }
        i = i + 1;
    }
    v
}

impl PoolConfig {
    /// One class for each power-of-two multiple of `min` up to `max`, each of
    /// `count` chunks.
    pub fn power_of_two(min: u32, max: u32, count: u32) -> (c: PoolConfig)
        requires
            min > 0,
        ensures
            forall|i: int|
                0 <= i < c.classes@.len() ==> (#[trigger] c.classes@[i]).chunk_size == doubled(
                    min as int,
                    i as nat,
                ) && c.classes@[i].chunk_size <= max && c.classes@[i].chunk_count == count,
            doubled(min as int, c.classes@.len()) > max,
    {
        let mut classes: Vec<SizeClass> = Vec::new();
        let mut size: u64 = min as u64;
        while size <= max as u64
            invariant
                size > 0,
                size <= 2 * u32::MAX as u64,
                size == doubled(min as int, classes@.len()),
                forall|i: int|
                    0 <= i < classes@.len() ==> (#[trigger] classes@[i]).chunk_size == doubled(
                        min as int,
                        i as nat,
                    ) && classes@[i].chunk_size <= max && classes@[i].chunk_count == count,
            decreases 2 * u32::MAX as u64 - size,
        {
            classes.push(SizeClass { chunk_size: size as u32, chunk_count: count });
            size = size * 2;
        }
        PoolConfig { classes }
    }

    /// The sizes of all chunks, class by class.
    fn flat(&self) -> (v: Vec<u32>)
        ensures
            v@ == sizes(self.classes@),
    {
        let mut v: Vec<u32> = Vec::new();
        let n: usize = self.classes.len();
        let mut i: usize = 0;
        while i < n
            invariant
                n == self.classes@.len(),
                i <= n,
                v@ == sizes(self.classes@.take(i as int)),
            decreases n - i,
        {
            let c: SizeClass = self.classes[i];
            let ghost v0 = v@;
            let mut k: u32 = 0;
            while k < c.chunk_count
                invariant
                    k <= c.chunk_count,
                    v@ == v0 + Seq::new(k as nat, |j: int| c.chunk_size),
                decreases c.chunk_count - k,
            {
                v.push(c.chunk_size);
                proof {
                    assert(v@ =~= v0 + Seq::new((k + 1) as nat, |j: int| c.chunk_size));
                }
                k = k + 1;
            }
            proof {
                assert(self.classes@.take(i + 1).drop_last() =~= self.classes@.take(i as int));
            }
            i = i + 1;
        }
        proof {
            assert(self.classes@.take(n as int) =~= self.classes@);
        }
        v
    }
}

proof fn lemma_total_mono(s: Seq<u32>, i: int, j: int)
    requires
        0 <= i <= j <= s.len(),
        forall|k: int| 0 <= k < s.len() ==> #[trigger] s[k] > 0,
    ensures
        0 <= total_size(s.take(i)) <= total_size(s.take(j)),
        i < j ==> total_size(s.take(i)) < total_size(s.take(j)),
        i < s.len() ==> total_size(s.take(i + 1)) == total_size(s.take(i)) + s[i],
    decreases j,
{
    if i < s.len() {
        assert(s.take(i + 1).drop_last() =~= s.take(i));
    }
    if j > 0 {
        assert(s.take(j).drop_last() =~= s.take(j - 1));
        if i < j {
            lemma_total_mono(s, i, j - 1);
        } else {
            lemma_total_mono(s, i - 1, j - 1);
            assert(s.take(i).drop_last() =~= s.take(i - 1));
        }
    }
}

proof fn lemma_unlisted(p: Seq<ChunkView>, off: u32)
    requires
        forall|i: int| 0 <= i < p.len() ==> (#[trigger] p[i]).story is None,
    ensures
        listings(p, off) == 0,
    decreases p.len(),
{
    if p.len() > 0 {
        lemma_unlisted(p.drop_last(), off);
    }
}

impl ChunkPool {
    /// Lay out a pool in a segment with room for `payload_len` bytes.
    pub fn create(segment_id: u32, config: &PoolConfig, payload_len: usize) -> (r: Result<ChunkPool, Error>)
        ensures
            ({
                let s = sizes(config.classes@);
                let fits = total_size(s) <= payload_len && POOL_BASE + total_size(s) <= u32::MAX
                    && forall|i: int| 0 <= i < s.len() ==> #[trigger] s[i] > 0;
                match r {
                    Ok(pool) => fits && pool.wf() && new_pool(&pool, segment_id, s),
                    Err(e) => !fits && e == Error::LayoutOverflow("pool does not fit the segment"),
                }
            }),
    {
        let list: Vec<u32> = config.flat();
        let ghost s = list@;
        let n: usize = list.len();
        let mut total: u64 = 0;
        let mut ok: bool = true;
        let mut i: usize = 0;
        while i < n && ok
            invariant
                n == s.len(),
                s == list@,
                i <= n,
                ok ==> {
                    &&& forall|k: int| 0 <= k < i ==> #[trigger] s[k] > 0
                    &&& total == total_size(s.take(i as int))
                    &&& POOL_BASE + total <= u32::MAX
                    &&& total <= payload_len
                },
                !ok ==> !(total_size(s) <= payload_len && POOL_BASE + total_size(s) <= u32::MAX
                    && forall|k: int| 0 <= k < s.len() ==> #[trigger] s[k] > 0),
            decreases n - i,
        {
            let c: u32 = list[i];
            proof {
                assert(s.take(i + 1).drop_last() =~= s.take(i as int));
                if forall|k: int| 0 <= k < s.len() ==> #[trigger] s[k] > 0 {
                    lemma_total_mono(s, i + 1, n as int);
                    assert(s.take(n as int) =~= s);
                }
            }
            if c == 0 || POOL_BASE as u64 + total + c as u64 > u32::MAX as u64 || total + c as u64
                > payload_len as u64 {
                ok = false;
            } else {
                total = total + c as u64;
            }
            i = i + 1;
        }
        if !ok {
            return Err(Error::LayoutOverflow("pool does not fit the segment"));
        }
        proof {
            assert(s.take(n as int) =~= s);
        }
        let mut lay: Vec<u32> = Vec::new();
        let mut chunks: Vec<Chunk> = Vec::new();
        let mut off: u32 = POOL_BASE;
        let mut k: usize = 0;
        while k < n
            invariant
                n == s.len(),
                s == list@,
                k <= n,
                forall|j: int| 0 <= j < s.len() ==> #[trigger] s[j] > 0,
                POOL_BASE + total_size(s) <= u32::MAX,
                off == POOL_BASE + total_size(s.take(k as int)),
                lay@ == Seq::new(k as nat, |i: int| (POOL_BASE + total_size(s.take(i))) as u32),
                chunks@.len() == k,
                forall|i: int| 0 <= i < k ==> (#[trigger] chunks@[i])@ == new_chunk(s[i]),
            decreases n - k,
        {
            proof {
                lemma_total_mono(s, k as int, k + 1);
                lemma_total_mono(s, k + 1, n as int);
                assert(s.take(n as int) =~= s);
            }
            let c: u32 = list[k];
            lay.push(off);
            chunks.push(
                Chunk {
                    len: c,
                    state: ChunkState::Free,
                    refcount: 0,
                    owner: OWNER_NONE,
                    generation: 0,
                    allocated: false,
                    bytes: zeros(c),
                    story: Ghost(None),
                },
            );
            off = off + c;
            proof {
                assert(lay@ =~= Seq::new(
                    (k + 1) as nat,
                    |i: int| (POOL_BASE + total_size(s.take(i))) as u32,
                ));
            }
            k = k + 1;
        }
        let pool = ChunkPool { segment_id, lay, chunks };
        proof {
            assert(pool@ =~= Seq::new(s.len(), |i: int| new_chunk(s[i])));
            assert(s.take(n as int) =~= s);
            assert forall|i: int| 0 <= i < pool.lay@.len() implies #[trigger] pool.lay@[i] > 0 by {
                lemma_total_mono(s, i, n as int);
            }
            assert forall|i: int, j: int| 0 <= i < j < pool.lay@.len() implies pool.lay@[i]
                < pool.lay@[j] by {
                lemma_total_mono(s, i, j);
                lemma_total_mono(s, j, n as int);
            }
            assert forall|i: int| 0 <= i < pool@.len() implies #[trigger] held(pool.lay@, pool@, i)
                >= 0 by {
                lemma_unlisted(pool@, pool.lay@[i]);
            }
        }
        Ok(pool)
    }

    /// How many chunks are in the pool.
    pub fn free_count(&self) -> (n: usize)
        ensures
            n == free_chunks(self@),
    {
        let m: usize = self.chunks.len();
        let mut n: usize = 0;
        let mut i: usize = 0;
        while i < m
            invariant
                m == self.chunks@.len(),
                i <= m,
                n <= i,
                n == free_chunks(self@.take(i as int)),
            decreases m - i,
        {
            proof {
                assert(self@.take(i + 1).drop_last() =~= self@.take(i as int));
            }
            if !self.chunks[i].allocated {
                n = n + 1;
            }
            i = i + 1;
        }
        proof {
            assert(self@.take(m as int) =~= self@);
        }
        n
    }

    /// The bytes of the chunk `desc` names.
    pub fn bytes(&self, desc: &ChunkDesc) -> (r: Result<&Vec<u8>, Error>)
        requires
            self.wf(),
        ensures
            r is Ok <==> self.names(desc.segment_id, desc.offset),
            r matches Err(e) ==> e == Error::OutOfBounds,
            r matches Ok(b) ==> b@ == self@[self.at(desc.offset)].bytes,
    {
        match self.find(desc.segment_id, desc.offset) {
            None => Err(Error::OutOfBounds),
            Some(k) => {
                proof {
                    assert(self@[k as int] == self.chunks@[k as int]@);
                }
                Ok(&self.chunks[k].bytes)
            },
        }
    }
}

/// How many chunks are in the pool.
pub open spec fn free_chunks(p: Seq<ChunkView>) -> nat
    decreases p.len(),
{
    if p.len() == 0 {
        0
    } else {
        free_chunks(p.drop_last()) + if p.last().allocated {
            0nat
        } else {
            1
        }
    }
}

} // verus!
