use vstd::prelude::*;

verus! {

/// Moves of one search node, kept sorted by ascending score; they come out
/// by descending score.
pub struct MoveSorter {
    entries: [(u64, i32); 7],
    size: usize,
}

/// Scores never decrease along `s`.
pub open spec fn sorted_by_score(s: Seq<(u64, i32)>) -> bool {
    forall|i: int, j: int| 0 <= i < j < s.len() ==> s[i].1 <= s[j].1
}

impl MoveSorter {
    /// The moves held, from the lowest score to the highest.
    pub closed spec fn spec_entries(&self) -> Seq<(u64, i32)> {
        self.entries@.take(self.size as int)
    }

    /// The internal invariant: at most seven moves, in ascending order.
    pub closed spec fn wf(&self) -> bool {
        self.size <= 7 && sorted_by_score(self.spec_entries())
    }

    /// An empty sorter.
    pub fn new() -> (r: Self)
        ensures
            r.wf(),
            r.spec_entries() == Seq::<(u64, i32)>::empty(),
    {
        let r = MoveSorter { entries: [(0u64, 0i32); 7], size: 0 };
        proof {
            assert(r.spec_entries() =~= Seq::<(u64, i32)>::empty());
        }
        r
    }

    /// Number of moves held.
    pub fn len(&self) -> (r: usize)
        requires
            self.wf(),
        ensures
            r == self.spec_entries().len(),
    {
        self.size
    }

    /// Inserts a move after every move of lower or equal score and before
    /// every move of higher score.
    pub fn add(&mut self, mov: u64, score: i32)
        requires
            old(self).wf(),
            old(self).spec_entries().len() < 7,
        ensures
            final(self).wf(),
            exists|p: int|
                0 <= p <= old(self).spec_entries().len() && (forall|j: int|
                    0 <= j < p ==> old(self).spec_entries()[j].1 <= score) && (forall|j: int|
                    p <= j < old(self).spec_entries().len() ==> old(self).spec_entries()[j].1
                        > score) && final(self).spec_entries() == old(self).spec_entries().insert(
                    p,
                    (mov, score),
                ),
    {
        let ghost before = self.spec_entries();
        let mut pos = self.size;
        while pos != 0 && self.entries[pos - 1].1 > score
            invariant
                self.size == before.len(),
                self.size < 7,
                pos <= self.size,
                forall|j: int| 0 <= j < pos ==> self.entries@[j] == before[j],
                forall|j: int| pos < j <= self.size ==> self.entries@[j] == before[j - 1],
                forall|j: int| pos <= j < self.size ==> before[j].1 > score,
                sorted_by_score(before),
            decreases pos,
        {
            self.entries[pos] = self.entries[pos - 1];
            pos = pos - 1;
        }
        self.entries[pos] = (mov, score);
        self.size = self.size + 1;
        proof {
            let after = before.insert(pos as int, (mov, score));
            assert(forall|j: int| 0 <= j < pos ==> before[j].1 <= score) by {
                assert forall|j: int| 0 <= j < pos implies before[j].1 <= score by {
                    if pos > 0 {
                        assert(before[pos - 1].1 <= score);
                    }
                }
            }
            assert(self.spec_entries() =~= after);
        }
    }

    /// Takes out the move of highest score, if any.
    pub fn next(&mut self) -> (r: Option<u64>)
        requires
            old(self).wf(),
        ensures
            final(self).wf(),
            old(self).spec_entries().len() == 0 ==> r is None && final(self).spec_entries()
                == old(self).spec_entries(),
            old(self).spec_entries().len() > 0 ==> r == Some(old(self).spec_entries().last().0)
                && final(self).spec_entries() == old(self).spec_entries().drop_last(),
    {
        if self.size > 0 {
            self.size = self.size - 1;
            proof {
                assert(self.spec_entries() =~= old(self).spec_entries().drop_last());
            }
            Some(self.entries[self.size].0)
        } else {
            None
        }
    }
}

} // verus!
