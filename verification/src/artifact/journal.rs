//! The borrow journal: a ledger of what an actor holds, so that someone else
//! can give it back if the actor dies. A record's slot is the ownership of what
//! it records: whoever clears the slot does the giving back.
use vstd::prelude::*;

use crate::artifact::error::Error;

verus! {

/// One thing an actor holds.
#[derive(Clone, Copy, Debug, PartialEq, Eq, Structural)]
pub enum JournalRecord {
    /// A pin on a version.
    ArtifactPin { artifact_id: u32, incarnation: u32, version: u64 },
    /// The exclusive write lease, under a fence.
    WriteLease { artifact_id: u32, incarnation: u32, fence: u32 },
    /// A manifest staged but not known to be installed.
    StagedManifest { artifact_id: u32, incarnation: u32, manifest: u64, generation: u32 },
}

/// A ledger with a fixed number of slots.
#[derive(Debug)]
pub struct BorrowJournal {
    pub slots: Vec<Option<JournalRecord>>,
}

/// How many slots are taken.
pub open spec fn taken(s: Seq<Option<JournalRecord>>) -> nat
    decreases s.len(),
{
    if s.len() == 0 {
        0
    } else {
        taken(s.drop_last()) + if s.last() is Some {
            1nat
        } else {
            0
        }
    }
}

/// The records, each with its slot, in slot order.
pub open spec fn records(s: Seq<Option<JournalRecord>>) -> Seq<(usize, JournalRecord)>
    decreases s.len(),
{
    if s.len() == 0 {
        seq![]
    } else {
        let p = records(s.drop_last());
        match s.last() {
            Some(r) => p.push(((s.len() - 1) as usize, r)),
            None => p,
        }
    }
}

impl View for BorrowJournal {
    type V = Seq<Option<JournalRecord>>;

    open spec fn view(&self) -> Seq<Option<JournalRecord>> {
        self.slots@
    }
}

impl BorrowJournal {
    /// An empty ledger of `capacity` slots.
    pub fn create(capacity: usize) -> (j: BorrowJournal)
        ensures
            j@ == Seq::new(capacity as nat, |i: int| None::<JournalRecord>),
    {
        let mut slots: Vec<Option<JournalRecord>> = Vec::new();
        let mut i: usize = 0;
        while i < capacity
            invariant
                i <= capacity,
                slots@ == Seq::new(i as nat, |k: int| None::<JournalRecord>),
            decreases capacity - i,
        {
            slots.push(None);
            proof {
                assert(slots@ =~= Seq::new((i + 1) as nat, |k: int| None::<JournalRecord>));
            }
            i = i + 1;
        }
        BorrowJournal { slots }
    }

    /// Write `rec` into the first empty slot; the slot it went to.
    pub fn record(&mut self, rec: JournalRecord) -> (r: Result<usize, Error>)
        ensures
            match r {
                Ok(i) => {
                    &&& i < old(self)@.len()
                    &&& old(self)@[i as int] is None
                    &&& forall|j: int| 0 <= j < i ==> (#[trigger] old(self)@[j]) is Some
                    &&& final(self)@ == old(self)@.update(i as int, Some(rec))
                },
                Err(e) => {
                    &&& e == Error::JournalFull
                    &&& forall|j: int| 0 <= j < old(self)@.len() ==> (#[trigger] old(self)@[j]) is Some
                    &&& final(self)@ == old(self)@
                },
            },
    {
        let n: usize = self.slots.len();
        let mut i: usize = 0;
        while i < n
            invariant
                n == self.slots@.len(),
                i <= n,
                *self == *old(self),
                forall|j: int| 0 <= j < i ==> (#[trigger] self.slots@[j]) is Some,
            decreases n - i,
        {
            if self.slots[i].is_none() {
                self.slots.set(i, Some(rec));
                return Ok(i);
            }
            i = i + 1;
        }
        Err(Error::JournalFull)
    }

    /// Clear a slot. Of all who try, the one that finds a record there is told
    /// `true` and owns what it recorded.
    pub fn release(&mut self, slot: usize) -> (won: bool)
        ensures
            won <==> slot < old(self)@.len() && old(self)@[slot as int] is Some,
            final(self)@ == if won {
                old(self)@.update(slot as int, None)
            } else {
                old(self)@
            },
    {
        if slot < self.slots.len() && self.slots[slot].is_some() {
            self.slots.set(slot, None);
            true
        } else {
            false
        }
    }

    /// How many records there are.
    pub fn len(&self) -> (n: usize)
        ensures
            n == taken(self@),
    {
        let m: usize = self.slots.len();
        let mut n: usize = 0;
        let mut i: usize = 0;
        while i < m
            invariant
                m == self.slots@.len(),
                i <= m,
                n <= i,
                n == taken(self.slots@.take(i as int)),
            decreases m - i,
        {
            proof {
                assert(self.slots@.take(i + 1).drop_last() =~= self.slots@.take(i as int));
            }
            if self.slots[i].is_some() {
                n = n + 1;
            }
            i = i + 1;
        }
        proof {
            assert(self.slots@.take(m as int) =~= self.slots@);
        }
        n
    }

    pub fn is_empty(&self) -> (b: bool)
        ensures
            b == (taken(self@) == 0),
    {
        self.len() == 0
    }

    /// The records with their slots.
    pub fn replay_indexed(&self) -> (v: Vec<(usize, JournalRecord)>)
        ensures
            v@ == records(self@),
    {
        let m: usize = self.slots.len();
        let mut v: Vec<(usize, JournalRecord)> = Vec::new();
        let mut i: usize = 0;
        while i < m
            invariant
                m == self.slots@.len(),
                i <= m,
                v@ == records(self.slots@.take(i as int)),
            decreases m - i,
        {
            proof {
                assert(self.slots@.take(i + 1).drop_last() =~= self.slots@.take(i as int));
            }
            if let Some(r) = self.slots[i] {
                v.push((i, r));
            }
            i = i + 1;
        }
        proof {
            assert(self.slots@.take(m as int) =~= self.slots@);
        }
        v
    }
}

/// A record can be released once: the second to try is told `false`.
pub proof fn release_elects_one(s: Seq<Option<JournalRecord>>, slot: int)
    requires
        0 <= slot < s.len(),
        s[slot] is Some,
    ensures
        s.update(slot, None)[slot] is None,
        taken(s.update(slot, None)) == taken(s) - 1,
    decreases s.len(),
{
    let q = s.update(slot, None);
    if slot == s.len() - 1 {
        assert(q.drop_last() =~= s.drop_last());
    } else {
        release_elects_one(s.drop_last(), slot);
        assert(q.drop_last() =~= s.drop_last().update(slot, None));
    }
}

} // verus!
