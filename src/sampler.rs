use crate::table::{AliasTable, is_outcome};
use rand::rngs::StdRng;
use vstd::prelude::*;

verus! {

/// An endless sequence of draws from an alias table, each one a call of
/// `AliasTable::pick` with the random source that the sequence owns.
pub struct AliasTableIterator<'a, T> {
    rng: StdRng,
    table: &'a AliasTable<T>,
}

impl<T> AliasTable<T> {
    /// A sequence of draws from this table that consumes `rng`.
    pub fn iter(&self, rng: StdRng) -> (r: AliasTableIterator<'_, T>)
        ensures
            r.source() == *self,
            r.generator() == rng,
    {
        AliasTableIterator { rng, table: self }
    }
}

impl<'a, T> AliasTableIterator<'a, T> {
    /// The table drawn from.
    pub closed spec fn source(&self) -> AliasTable<T> {
        *self.table
    }

    /// The random source, as it stands before the next draw.
    pub closed spec fn generator(&self) -> StdRng {
        self.rng
    }

    /// The next draw. There always is one.
    pub fn next(&mut self) -> (r: Option<&'a T>)
        requires
            old(self).source().wf(),
        ensures
            final(self).source() == old(self).source(),
            r is Some,
            is_outcome(old(self).source(), *r->Some_0),
    {
        let x = self.table.pick(&mut self.rng);
        Some(x)
    }

    /// The first `k` draws, taken one after another.
    pub fn take(&mut self, k: usize) -> (r: Vec<&'a T>)
        requires
            old(self).source().wf(),
        ensures
            final(self).source() == old(self).source(),
            r@.len() == k,
            forall|j: int| 0 <= j < k ==> is_outcome(old(self).source(), *#[trigger] r@[j]),
    {
        let mut out: Vec<&'a T> = Vec::new();
        let mut j: usize = 0;
        while j < k
            invariant
                self.source() == old(self).source(),
                self.source().wf(),
                j <= k,
                out@.len() == j,
                forall|m: int| 0 <= m < j ==> is_outcome(old(self).source(), *#[trigger] out@[m]),
            decreases k - j,
        {
            let x = self.table.pick(&mut self.rng);
            out.push(x);
            j = j + 1;
        }
        out
    }

    /// The sequence has no end: at least `usize::MAX` draws and no upper bound.
    pub fn size_hint(&self) -> (r: (usize, Option<usize>))
        ensures
            r == (usize::MAX, None::<usize>),
    {
        (usize::MAX, None)
    }
}

} // verus!
