//! Which handler takes which schema.
use vstd::prelude::*;

verus! {

/// A table from schema ids to handlers, for one sort of actor.
pub struct Dispatch<H> {
    /// The ids, ascending.
    pub ids: Vec<u32>,
    /// The handler of each id.
    pub table: Vec<H>,
}

/// The ids ascend and each has a handler.
pub open spec fn ascending(s: Seq<u32>) -> bool {
    forall|i: int, j: int| 0 <= i < j < s.len() ==> s[i] < s[j]
}

impl<H> Dispatch<H> {
    pub open spec fn wf(&self) -> bool {
        &&& ascending(self.ids@)
        &&& self.table@.len() == self.ids@.len()
    }

    /// The handlers by id.
    pub open spec fn handlers(&self) -> Map<u32, H> {
        Map::new(
            |id: u32| self.ids@.contains(id),
            |id: u32| self.table@[self.ids@.index_of(id)],
        )
    }
}

proof fn lemma_index(s: Seq<u32>, i: int)
    requires
        ascending(s),
        0 <= i < s.len(),
    ensures
        s.contains(s[i]),
        s.index_of(s[i]) == i,
{
    assert(s.contains(s[i]));
    let k = s.index_of(s[i]);
    assert(0 <= k < s.len() && s[k] == s[i]);
    if k < i {
        assert(s[k] < s[i]);
    }
    if i < k {
        assert(s[i] < s[k]);
    }
}

/// Where `id` is among the ascending `ids`, or where it belongs.
fn search(ids: &Vec<u32>, id: u32) -> (r: Result<usize, usize>)
    requires
        ascending(ids@),
    ensures
        match r {
            Ok(i) => i < ids@.len() && ids@[i as int] == id,
            Err(i) => {
                &&& i <= ids@.len()
                &&& !ids@.contains(id)
                &&& forall|k: int| 0 <= k < i ==> #[trigger] ids@[k] < id
                &&& forall|k: int| i <= k < ids@.len() ==> #[trigger] ids@[k] > id
            },
        },
{
    let n: usize = ids.len();
    let mut lo: usize = 0;
    let mut hi: usize = n;
    while lo < hi
        invariant
            n == ids@.len(),
            ascending(ids@),
            lo <= hi <= n,
            forall|k: int| 0 <= k < lo ==> #[trigger] ids@[k] < id,
            forall|k: int| hi <= k < n ==> #[trigger] ids@[k] > id,
        decreases hi - lo,
    {
        let mid: usize = lo + (hi - lo) / 2;
        let x: u32 = ids[mid];
        if x == id {
            return Ok(mid);
        }
        if x < id {
            proof {
                assert forall|k: int| 0 <= k < mid + 1 implies #[trigger] ids@[k] < id by {
                    if k < mid {
                        assert(ids@[k] < ids@[mid as int]);
                    }
                }
            }
            lo = mid + 1;
        } else {
            proof {
                assert forall|k: int| mid <= k < n implies #[trigger] ids@[k] > id by {
                    if mid < k {
                        assert(ids@[mid as int] < ids@[k]);
                    }
                }
            }
            hi = mid;
        }
    }
    proof {
        if ids@.contains(id) {
            let k = choose|k: int| 0 <= k < ids@.len() && ids@[k] == id;
            assert(ids@[k] == id);
        }
    }
    Err(lo)
}

impl<H: Copy> Dispatch<H> {
    /// An empty table.
    pub fn new() -> (d: Dispatch<H>)
        ensures
            d.wf(),
            d.ids@.len() == 0,
            d.handlers() == Map::<u32, H>::empty(),
    {
        let d = Dispatch { ids: Vec::new(), table: Vec::new() };
        proof {
            assert(d.handlers() =~= Map::<u32, H>::empty());
        }
        d
    }

    /// Let `handler` take `schema_id`, in place of any other.
    pub fn register(&mut self, schema_id: u32, handler: H) -> (r: &mut Self)
        requires
            old(self).wf(),
        ensures
            r.wf(),
            r.handlers() == old(self).handlers().insert(schema_id, handler),
            r.ids@.len() == old(self).ids@.len() + if old(self).ids@.contains(schema_id) {
                0int
            } else {
                1
            },
            *final(self) == *final(r),
    {
        let ghost d0 = *self;
        match search(&self.ids, schema_id) {
            Ok(i) => {
                self.table.set(i, handler);
                proof {
                    lemma_index(self.ids@, i as int);
                    assert(self.handlers() =~= d0.handlers().insert(schema_id, handler)) by {
                        assert forall|id: u32| self.ids@.contains(id) && id != schema_id implies self.ids@.index_of(id)
                            != i by {
                            let k = self.ids@.index_of(id);
                            assert(self.ids@[k] == id);
                        }
                    }
                }
            },
            Err(i) => {
                self.ids.insert(i, schema_id);
                self.table.insert(i, handler);
                proof {
                    lemma_inserted(d0, *self, i as int, schema_id, handler);
                }
            },
        }
        self
    }

    /// The same, by value.
    pub fn on(self, schema_id: u32, handler: H) -> (d: Self)
        requires
            self.wf(),
        ensures
            d.wf(),
            d.handlers() == self.handlers().insert(schema_id, handler),
            d.ids@.len() == self.ids@.len() + if self.ids@.contains(schema_id) {
                0int
            } else {
                1
            },
    {
        let mut d: Dispatch<H> = self;
        d.register(schema_id, handler);
        d
    }

    /// The handler of `schema_id`, if there is one.
    pub fn lookup(&self, schema_id: u32) -> (r: Option<H>)
        requires
            self.wf(),
        ensures
            r == if self.handlers().contains_key(schema_id) {
                Some(self.handlers()[schema_id])
            } else {
                None
            },
    {
        match search(&self.ids, schema_id) {
            Ok(i) => {
                proof {
                    lemma_index(self.ids@, i as int);
                }
                Some(self.table[i])
            },
            Err(_) => None,
        }
    }

    /// How many handlers there are.
    pub fn len(&self) -> (n: usize)
        ensures
            n == self.ids@.len(),
    {
        self.ids.len()
    }

    pub fn is_empty(&self) -> (b: bool)
        ensures
            b == (self.ids@.len() == 0),
    {
        self.ids.len() == 0
    }

    /// The ids that have a handler, ascending.
    pub fn schema_ids(&self) -> (s: &[u32])
        requires
            self.wf(),
        ensures
            s@ == self.ids@,
            ascending(s@),
            forall|id: u32| s@.contains(id) <==> #[trigger] self.handlers().contains_key(id),
    {
        self.ids.as_slice()
    }
}

impl<H: Copy> Default for Dispatch<H> {
    fn default() -> (d: Dispatch<H>)
        ensures
            d.wf(),
            d.handlers() == Map::<u32, H>::empty(),
    {
        Dispatch::new()
    }
}

proof fn lemma_inserted<H>(a: Dispatch<H>, b: Dispatch<H>, i: int, id: u32, h: H)
    requires
        a.wf(),
        0 <= i <= a.ids@.len(),
        !a.ids@.contains(id),
        forall|k: int| 0 <= k < i ==> #[trigger] a.ids@[k] < id,
        forall|k: int| i <= k < a.ids@.len() ==> #[trigger] a.ids@[k] > id,
        b.ids@ == a.ids@.insert(i, id),
        b.table@ == a.table@.insert(i, h),
    ensures
        b.wf(),
        b.handlers() == a.handlers().insert(id, h),
{
    let s = a.ids@;
    let t = b.ids@;
    assert forall|x: int, y: int| 0 <= x < y < t.len() implies t[x] < t[y] by {
        let x0 = if x < i { x } else { x - 1 };
        let y0 = if y < i { y } else { y - 1 };
        if x != i && y != i {
            assert(t[x] == s[x0] && t[y] == s[y0]);
            assert(s[x0] < s[y0]);
        } else if x == i {
            assert(t[y] == s[y0]);
        } else {
            assert(t[x] == s[x0]);
        }
    }
    let m = a.handlers().insert(id, h);
    assert forall|x: u32| #[trigger] b.handlers().contains_key(x) <==> m.contains_key(x) by {
        if t.contains(x) && x != id {
            let k = choose|k: int| 0 <= k < t.len() && t[k] == x;
            let k0 = if k < i { k } else { k - 1 };
            assert(s[k0] == x);
        }
        if s.contains(x) {
            let k = choose|k: int| 0 <= k < s.len() && s[k] == x;
            let k1 = if k < i { k } else { k + 1 };
            assert(t[k1] == x);
        }
        if x == id {
            assert(t[i] == x);
        }
    }
    assert forall|x: u32| b.handlers().contains_key(x) implies #[trigger] b.handlers()[x] == m[x] by {
        let k = t.index_of(x);
        assert(t[k] == x);
        lemma_index(t, k);
        if x == id {
            lemma_index(t, i);
        } else {
            let k0 = if k < i { k } else { k - 1 };
            assert(s[k0] == x);
            lemma_index(s, k0);
        }
    }
    assert(b.handlers() =~= m);
}

} // verus!
