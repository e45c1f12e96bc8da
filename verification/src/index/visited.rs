//! Which nodes a search has seen.
use vstd::prelude::*;

verus! {

/// A set of nodes that is emptied without clearing it: a node is in the set when
/// its mark is that of the present search.
#[derive(Debug)]
pub struct VisitedPool {
    marks: Vec<u32>,
    generation: u32,
}

impl VisitedPool {
    /// No mark is from a later search than the present one.
    pub closed spec fn wf(&self) -> bool {
        forall|i: int| 0 <= i < self.marks@.len() ==> #[trigger] self.marks@[i] <= self.generation
    }

    /// The nodes that the present search has seen.
    pub closed spec fn visited(&self) -> Set<int> {
        Set::new(|i: int| 0 <= i < self.marks@.len() && self.marks@[i] == self.generation)
    }

    /// How many nodes there are marks for.
    pub closed spec fn size(&self) -> nat {
        self.marks@.len()
    }

    /// A pool for no nodes yet.
    pub fn new() -> (pool: Self)
        ensures
            pool.wf(),
            pool.size() == 0,
            pool.visited() == Set::<int>::empty(),
    {
        let pool = Self { marks: Vec::new(), generation: 0 };
        assert(pool.visited() =~= Set::<int>::empty());
        pool
    }

    /// Starts a search over `n` nodes, none of which it has seen.
    pub fn begin(&mut self, n: usize)
        requires
            old(self).wf(),
        ensures
            final(self).wf(),
            final(self).visited() == Set::<int>::empty(),
            final(self).size() == (if old(self).size() < n { n as nat } else { old(self).size() }),
    {
        let ghost before = *self;
        if self.marks.len() < n {
            self.marks.resize(n, 0);
        }
        assert forall|i: int| 0 <= i < self.marks@.len() implies #[trigger] self.marks@[i]
            <= self.generation by {
            if i < before.marks@.len() {
                assert(self.marks@[i] == before.marks@[i]);
            }
        }
        if self.generation == u32::MAX {
            let len: usize = self.marks.len();
            for i in 0..len
                invariant
                    self.marks@.len() == len,
                    forall|j: int| 0 <= j < i ==> #[trigger] self.marks@[j] == 0,
            {
                self.marks.set(i, 0);
            }
            self.generation = 1;
        } else {
            self.generation = self.generation + 1;
        }
        assert(self.visited() =~= Set::<int>::empty());
    }

    /// Sees a node. Says whether the search had not seen it before.
    pub fn visit(&mut self, idx: usize) -> (fresh: bool)
        requires
            old(self).wf(),
            idx < old(self).size(),
        ensures
            final(self).wf(),
            final(self).size() == old(self).size(),
            fresh == !old(self).visited().contains(idx as int),
            final(self).visited() == old(self).visited().insert(idx as int),
    {
        let ghost before = self.visited();
        if self.marks[idx] == self.generation {
            assert(self.visited() =~= before.insert(idx as int));
            false
        } else {
            self.marks.set(idx, self.generation);
            assert(self.visited() =~= before.insert(idx as int));
            true
        }
    }
}

} // verus!
