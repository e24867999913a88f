use vstd::prelude::*;

use crate::chainset::{trimmed, ChainSet};

verus! {

/// The contact-tracing queue: three priority layers (family over
/// workplace over world) of daily cohorts, plus the record of agents
/// tested recently, which suppresses re-enqueuing.
pub struct TestQueue {
    pub maxsize: usize,
    pub family_queue: ChainSet,
    pub workplace_queue: ChainSet,
    pub world_queue: ChainSet,
    pub recently_tested: ChainSet,
}

impl TestQueue {
    /// Membership in any of the three priority layers.
    pub open spec fn queued(&self, x: int) -> bool {
        self.family_queue.has(x) || self.workplace_queue.has(x) || self.world_queue.has(x)
    }

    /// Entries waiting over all three layers.
    pub open spec fn pending(&self) -> int {
        self.family_queue.total() + self.workplace_queue.total() + self.world_queue.total()
    }

    /// Layers are internally sound, pairwise disjoint, and disjoint
    /// from the recently-tested record (the suppression invariant).
    pub open spec fn wf(&self) -> bool {
        &&& self.family_queue.wf()
        &&& self.workplace_queue.wf()
        &&& self.world_queue.wf()
        &&& self.recently_tested.wf()
        &&& forall|x: int|
            #[trigger] self.family_queue.has(x) ==> !self.workplace_queue.has(x)
                && !self.world_queue.has(x) && !self.recently_tested.has(x)
        &&& forall|x: int|
            #[trigger] self.workplace_queue.has(x) ==> !self.world_queue.has(x)
                && !self.recently_tested.has(x)
        &&& forall|x: int| #[trigger] self.world_queue.has(x) ==> !self.recently_tested.has(x)
    }

    pub fn new(maxsize: usize) -> (r: TestQueue)
        ensures
            r.wf(),
            r.maxsize == maxsize,
            forall|x: int| !r.queued(x) && !r.recently_tested.has(x),
            r.pending() == 0,
    {
        TestQueue {
            maxsize,
            family_queue: ChainSet::new(),
            workplace_queue: ChainSet::new(),
            world_queue: ChainSet::new(),
            recently_tested: ChainSet::new(),
        }
    }

    /// Saturating count of all waiting entries.
    pub fn len(&self) -> (r: usize)
        ensures
            r == (if self.pending() <= usize::MAX {
                self.pending()
            } else {
                usize::MAX as int
            }),
            r <= self.pending(),
    {
        proof {
            crate::chainset::lemma_chain_len_nonneg(self.family_queue.cohorts());
            crate::chainset::lemma_chain_len_nonneg(self.workplace_queue.cohorts());
            crate::chainset::lemma_chain_len_nonneg(self.world_queue.cohorts());
        }
        let a = self.family_queue.len();
        let b = self.workplace_queue.len();
        let c = self.world_queue.len();
        let ab = if b <= usize::MAX - a {
            a + b
        } else {
            usize::MAX
        };
        if c <= usize::MAX - ab {
            ab + c
        } else {
            usize::MAX
        }
    }

    /// The family layer takes no more entries.
    pub fn family_full(&self) -> (r: bool)
        ensures
            r == (self.family_queue.total() >= self.maxsize),
    {
        proof {
            crate::chainset::lemma_chain_len_nonneg(self.family_queue.cohorts());
        }
        self.family_queue.len() >= self.maxsize
    }

    /// The workplace layer takes no more entries (family entries eat
    /// into its room).
    pub fn workplace_full(&self) -> (r: bool)
        ensures
            r == (self.workplace_queue.total() + self.family_queue.total() >= self.maxsize),
    {
        proof {
            crate::chainset::lemma_chain_len_nonneg(self.family_queue.cohorts());
            crate::chainset::lemma_chain_len_nonneg(self.workplace_queue.cohorts());
        }
        let f = self.family_queue.len();
        if f >= self.maxsize {
            return true;
        }
        self.workplace_queue.len() >= self.maxsize - f
    }

    /// The world layer takes no more entries (both higher layers eat
    /// into its room).
    pub fn world_full(&self) -> (r: bool)
        ensures
            r == (self.pending() >= self.maxsize),
    {
        proof {
            crate::chainset::lemma_chain_len_nonneg(self.family_queue.cohorts());
            crate::chainset::lemma_chain_len_nonneg(self.workplace_queue.cohorts());
            crate::chainset::lemma_chain_len_nonneg(self.world_queue.cohorts());
        }
        let f = self.family_queue.len();
        if f >= self.maxsize {
            return true;
        }
        let w = self.workplace_queue.len();
        if w >= self.maxsize - f {
            return true;
        }
        self.world_queue.len() >= self.maxsize - f - w
    }

    /// Enqueues into the family layer: promotes the value out of the
    /// lower layers, evicts from the lowest nonempty layer when at
    /// capacity, and never displaces a family entry. A recently tested
    /// value is rejected outright.
    pub fn insert_family(&mut self, value: usize) -> (r: bool)
        requires
            old(self).wf(),
        ensures
            final(self).wf(),
            final(self).maxsize == old(self).maxsize,
            final(self).recently_tested == old(self).recently_tested,
            forall|x: int| old(self).family_queue.has(x) ==> final(self).family_queue.has(x),
            forall|x: int|
                #[trigger] final(self).family_queue.has(x) ==> old(self).family_queue.has(x) || x
                    == value,
            forall|x: int|
                #[trigger] final(self).workplace_queue.has(x) ==> old(self).workplace_queue.has(x),
            forall|x: int|
                #[trigger] final(self).world_queue.has(x) ==> old(self).world_queue.has(x),
            old(self).recently_tested.has(value as int) ==> *final(self) == *old(self),
            old(self).family_queue.total() >= old(self).maxsize ==> *final(self) == *old(self),
            r == (old(self).family_queue.total() < old(self).maxsize && !old(
                self,
            ).recently_tested.has(value as int)),
            !old(self).recently_tested.has(value as int) && old(self).family_queue.total() < old(
                self,
            ).maxsize ==> final(self).family_queue.has(value as int),
            final(self).family_queue.total() <= old(self).family_queue.total() + 1,
            final(self).workplace_queue.total() <= old(self).workplace_queue.total(),
            final(self).world_queue.total() <= old(self).world_queue.total(),
            old(self).pending() <= old(self).maxsize ==> final(self).pending() <= final(self).maxsize,
            !old(self).workplace_queue.has(value as int) && old(self).world_queue.total() > 0
                ==> final(self).workplace_queue == old(self).workplace_queue,
    {
        proof {
            crate::chainset::lemma_chain_len_nonneg(self.family_queue.cohorts());
            crate::chainset::lemma_chain_len_nonneg(self.workplace_queue.cohorts());
            crate::chainset::lemma_chain_len_nonneg(self.world_queue.cohorts());
        }
        if self.family_full() {
            return false;
        }
        if self.recently_tested.contains(value) {
            return false;
        }
        let b1 = self.workplace_queue.remove(value);
        let b2 = self.world_queue.remove(value);
        let b = b1 || b2;
        if !b {
            let l = self.len();
            if l > self.maxsize - 1 {
                if !self.world_queue.is_empty() {
                    self.world_queue.pop_clean();
                } else {
                    self.workplace_queue.pop_clean();
                }
            }
        }
        self.family_queue.insert(value)
    }

    /// Enqueues into the workplace layer: rejected when the value is
    /// recently tested or already held by the family layer; promotes
    /// out of the world layer; evicts from the world layer at
    /// capacity. The family layer is untouched.
    pub fn insert_workplace(&mut self, value: usize) -> (r: bool)
        requires
            old(self).wf(),
        ensures
            final(self).wf(),
            final(self).maxsize == old(self).maxsize,
            final(self).recently_tested == old(self).recently_tested,
            final(self).family_queue == old(self).family_queue,
            forall|x: int| old(self).workplace_queue.has(x) ==> final(self).workplace_queue.has(x),
            forall|x: int|
                #[trigger] final(self).workplace_queue.has(x) ==> old(self).workplace_queue.has(x)
                    || x == value,
            forall|x: int|
                #[trigger] final(self).world_queue.has(x) ==> old(self).world_queue.has(x),
            old(self).recently_tested.has(value as int) ==> *final(self) == *old(self),
            old(self).workplace_queue.total() + old(self).family_queue.total() >= old(
                self,
            ).maxsize ==> *final(self) == *old(self),
            old(self).family_queue.has(value as int) ==> *final(self) == *old(self),
            r == (old(self).workplace_queue.total() + old(self).family_queue.total() < old(
                self,
            ).maxsize && !old(self).family_queue.has(value as int) && !old(
                self,
            ).recently_tested.has(value as int)),
            !old(self).recently_tested.has(value as int) && !old(self).family_queue.has(
                value as int,
            ) && old(self).family_queue.total() + old(self).workplace_queue.total() < old(
                self,
            ).maxsize ==> final(self).workplace_queue.has(value as int),
            final(self).workplace_queue.total() <= old(self).workplace_queue.total() + 1,
            final(self).world_queue.total() <= old(self).world_queue.total(),
            old(self).pending() <= old(self).maxsize ==> final(self).pending() <= final(self).maxsize,
    {
        proof {
            crate::chainset::lemma_chain_len_nonneg(self.family_queue.cohorts());
            crate::chainset::lemma_chain_len_nonneg(self.workplace_queue.cohorts());
            crate::chainset::lemma_chain_len_nonneg(self.world_queue.cohorts());
        }
        if self.workplace_full() {
            return false;
        }
        if self.family_queue.contains(value) {
            return false;
        }
        if self.recently_tested.contains(value) {
            return false;
        }
        let b = self.world_queue.remove(value);
        if !b {
            let l = self.len();
            if l > self.maxsize - 1 {
                self.world_queue.pop_clean();
            }
        }
        self.workplace_queue.insert(value)
    }

    /// Enqueues into the world layer: rejected when full, recently
    /// tested, or already held by a higher layer. The higher layers
    /// are untouched.
    pub fn insert_world(&mut self, value: usize) -> (r: bool)
        requires
            old(self).wf(),
        ensures
            final(self).wf(),
            final(self).maxsize == old(self).maxsize,
            final(self).recently_tested == old(self).recently_tested,
            final(self).family_queue == old(self).family_queue,
            final(self).workplace_queue == old(self).workplace_queue,
            forall|x: int| old(self).world_queue.has(x) ==> final(self).world_queue.has(x),
            forall|x: int|
                #[trigger] final(self).world_queue.has(x) ==> old(self).world_queue.has(x) || x
                    == value,
            old(self).recently_tested.has(value as int) ==> *final(self) == *old(self),
            old(self).pending() >= old(self).maxsize ==> *final(self) == *old(self),
            old(self).family_queue.has(value as int) || old(self).workplace_queue.has(
                value as int,
            ) ==> *final(self) == *old(self),
            r == (old(self).pending() < old(self).maxsize && !old(self).family_queue.has(
                value as int,
            ) && !old(self).workplace_queue.has(value as int) && !old(self).recently_tested.has(
                value as int,
            )),
            !old(self).recently_tested.has(value as int) && !old(self).family_queue.has(
                value as int,
            ) && !old(self).workplace_queue.has(value as int) && old(self).pending() < old(
                self,
            ).maxsize ==> final(self).world_queue.has(value as int),
            final(self).world_queue.total() <= old(self).world_queue.total() + 1,
            final(self).pending() <= old(self).pending() + 1,
            old(self).pending() <= old(self).maxsize ==> final(self).pending() <= final(self).maxsize,
    {
        if self.world_full() {
            return false;
        }
        if self.family_queue.contains(value) || self.workplace_queue.contains(value) {
            return false;
        }
        if self.recently_tested.contains(value) {
            return false;
        }
        self.world_queue.insert(value)
    }

    /// Daily housekeeping: expire the oldest recently-tested cohort
    /// (from the second day on), drop emptied-out cohorts at the front
    /// of each layer and open a fresh cohort at its back. Queue
    /// membership is untouched.
    pub fn tick(&mut self, time: usize)
        requires
            old(self).wf(),
        ensures
            final(self).wf(),
            final(self).maxsize == old(self).maxsize,
            forall|x: int| final(self).family_queue.has(x) <==> old(self).family_queue.has(x),
            forall|x: int|
                final(self).workplace_queue.has(x) <==> old(self).workplace_queue.has(x),
            forall|x: int| final(self).world_queue.has(x) <==> old(self).world_queue.has(x),
            forall|x: int|
                #[trigger] final(self).recently_tested.has(x) ==> old(self).recently_tested.has(x),
            time <= 1 ==> final(self).recently_tested == old(self).recently_tested,
            time > 1 && old(self).recently_tested.cohorts().len() > 0
                ==> final(self).recently_tested.cohorts() == old(
                self).recently_tested.cohorts().drop_first(),
            final(self).family_queue.cohorts() == trimmed(
                old(self).family_queue.cohorts(),
            ).push(Seq::<usize>::empty()),
            final(self).workplace_queue.cohorts() == trimmed(
                old(self).workplace_queue.cohorts(),
            ).push(Seq::<usize>::empty()),
            final(self).world_queue.cohorts() == trimmed(
                old(self).world_queue.cohorts(),
            ).push(Seq::<usize>::empty()),
            final(self).family_queue.cohorts().len() == 1 || final(self).family_queue.cohorts()[0].len() > 0,
            final(self).workplace_queue.cohorts().len() == 1 || final(self).workplace_queue.cohorts()[0].len() > 0,
            final(self).world_queue.cohorts().len() == 1 || final(self).world_queue.cohorts()[0].len() > 0,
            final(self).pending() == old(self).pending(),
    {
        if time > 1 {
            self.recently_tested.pop_child();
        }
        self.family_queue.trim_front();
        self.family_queue.add_child();
        self.workplace_queue.trim_front();
        self.workplace_queue.add_child();
        self.world_queue.trim_front();
        self.world_queue.add_child();
        proof {
            crate::chainset::lemma_trimmed_front(old(self).family_queue.cohorts());
            crate::chainset::lemma_trimmed_front(old(self).workplace_queue.cohorts());
            crate::chainset::lemma_trimmed_front(old(self).world_queue.cohorts());
        }
    }

    /// Whether any layer still holds an entry.
    pub fn has_pending(&self) -> (r: bool)
        ensures
            r == (self.pending() != 0),
    {
        proof {
            crate::chainset::lemma_chain_len_nonneg(self.family_queue.cohorts());
            crate::chainset::lemma_chain_len_nonneg(self.workplace_queue.cohorts());
            crate::chainset::lemma_chain_len_nonneg(self.world_queue.cohorts());
        }
        if !self.family_queue.is_empty() {
            return true;
        }
        if !self.workplace_queue.is_empty() {
            return true;
        }
        !self.world_queue.is_empty()
    }

    /// Takes the next queued agent, highest-priority layer first,
    /// oldest cohort first within a layer.
    pub fn pop_next(&mut self) -> (r: Option<usize>)
        requires
            old(self).wf(),
        ensures
            final(self).wf(),
            final(self).maxsize == old(self).maxsize,
            final(self).recently_tested == old(self).recently_tested,
            r is None <==> old(self).pending() == 0,
            r is None ==> *final(self) == *old(self),
            r matches Some(v) ==> old(self).queued(v as int) && !final(self).queued(v as int)
                && final(self).pending() == old(self).pending() - 1,
            r matches Some(v) ==> (if old(self).family_queue.total() > 0 {
                old(self).family_queue.has(v as int)
            } else if old(self).workplace_queue.total() > 0 {
                old(self).workplace_queue.has(v as int)
            } else {
                old(self).world_queue.has(v as int)
            }),
            r matches Some(v) ==> forall|x: int|
                x != v ==> (final(self).queued(x) <==> old(self).queued(x)),
            forall|x: int| #[trigger] final(self).queued(x) ==> old(self).queued(x),
            forall|x: int|
                #[trigger] final(self).family_queue.has(x) ==> old(self).family_queue.has(x),
            forall|x: int|
                #[trigger] final(self).workplace_queue.has(x) ==> old(self).workplace_queue.has(x),
            forall|x: int|
                #[trigger] final(self).world_queue.has(x) ==> old(self).world_queue.has(x),
    {
        proof {
            crate::chainset::lemma_chain_len_nonneg(self.family_queue.cohorts());
            crate::chainset::lemma_chain_len_nonneg(self.workplace_queue.cohorts());
            crate::chainset::lemma_chain_len_nonneg(self.world_queue.cohorts());
        }
        let r = self.family_queue.pop_clean();
        if r.is_some() {
            return r;
        }
        let r = self.workplace_queue.pop_clean();
        if r.is_some() {
            return r;
        }
        self.world_queue.pop_clean()
    }
}

} // verus!
