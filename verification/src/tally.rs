//! What has been observed after one context.

use crate::sampling::lemma_sum_bounds_each;
use crate::sampling::lemma_sum_push;
use crate::sampling::lemma_sum_update;
use crate::sampling::weight_sum;
use crate::symbol::duplicate;
use crate::symbol::same;
use crate::symbol::symbol_laws;
use vstd::prelude::*;

verus! {

/// A symbol that was seen after a context, and how often.
pub(crate) struct Successor<T> {
    pub(crate) symbol: T,
    pub(crate) count: usize,
}

/// The observations made after one context: how many there were, and how
/// they divide among the symbols that came next.
pub(crate) struct Tally<T> {
    pub(crate) first: T,
    pub(crate) second: T,
    pub(crate) total: usize,
    pub(crate) successors: Vec<Successor<T>>,
}

impl<T: Clone + Eq> Tally<T> {
    /// The two symbols that this tally is kept for.
    pub(crate) open spec fn context(&self) -> (T, T) {
        (self.first, self.second)
    }

    /// The symbols seen after the context, in the order in which they
    /// first came.
    pub(crate) open spec fn symbols(&self) -> Seq<T> {
        Seq::new(self.successors@.len(), |j: int| self.successors@[j].symbol)
    }

    /// The count of each of those symbols, in the same order.
    pub(crate) open spec fn weights(&self) -> Seq<usize> {
        Seq::new(self.successors@.len(), |j: int| self.successors@[j].count)
    }

    /// Every successor is listed once with a positive count, and the counts
    /// add up to the total.
    pub(crate) open spec fn wf(&self) -> bool {
        &&& self.symbols().no_duplicates()
        &&& forall|j: int| 0 <= j < self.weights().len() ==> #[trigger] self.weights()[j] > 0
        &&& self.total == weight_sum(self.weights())
    }

    /// How often `symbol` was seen after the context.
    pub(crate) open spec fn count(&self, symbol: T) -> nat {
        if self.symbols().contains(symbol) {
            self.weights()[self.symbols().index_of(symbol)] as nat
        } else {
            0
        }
    }

    /// In a well-formed tally the count of a listed symbol is the weight at
    /// its position.
    pub(crate) proof fn lemma_count_at(&self, at: int)
        requires
            self.wf(),
            0 <= at < self.symbols().len(),
        ensures
            self.symbols().contains(self.symbols()[at]),
            self.count(self.symbols()[at]) == self.weights()[at],
            self.count(self.symbols()[at]) > 0,
    {
    }

    /// A tally for a context after which nothing has been seen yet.
    pub(crate) fn empty(first: T, second: T) -> (tally: Self)
        ensures
            tally.wf(),
            tally.context() == (first, second),
            tally.total == 0,
            tally.symbols().len() == 0,
    {
        Tally { first, second, total: 0, successors: Vec::new() }
    }

    /// Where `symbol` stands among the successors, if it does.
    pub(crate) fn position(&self, symbol: &T) -> (found: Option<usize>)
        requires
            symbol_laws::<T>(),
        ensures
            match found {
                Some(at) => at < self.symbols().len() && self.symbols()[at as int] == *symbol,
                None => !self.symbols().contains(*symbol),
            },
    {
        let mut at: usize = 0;
        while at < self.successors.len()
            invariant
                symbol_laws::<T>(),
                at <= self.successors@.len(),
                forall|j: int| 0 <= j < at ==> self.symbols()[j] != *symbol,
            decreases self.successors@.len() - at,
        {
            if same(&self.successors[at].symbol, symbol) {
                return Some(at);
            }
            at += 1;
        }
        None
    }

    /// Counts one more observation of `symbol` after the context.
    pub(crate) fn record(&mut self, symbol: &T)
        requires
            symbol_laws::<T>(),
            old(self).wf(),
            old(self).total < usize::MAX,
        ensures
            final(self).wf(),
            final(self).context() == old(self).context(),
            final(self).total == old(self).total + 1,
            final(self).symbols() == if old(self).symbols().contains(*symbol) {
                old(self).symbols()
            } else {
                old(self).symbols().push(*symbol)
            },
            final(self).count(*symbol) == old(self).count(*symbol) + 1,
            forall|other: T| other != *symbol ==> final(self).count(other) == old(self).count(other),
    {
        match self.position(symbol) {
            Some(at) => {
                proof {
                    lemma_sum_bounds_each(self.weights(), at as int);
                    lemma_sum_update(
                        self.weights(),
                        at as int,
                        (self.weights()[at as int] + 1) as usize,
                    );
                    self.lemma_count_at(at as int);
                }
                self.successors[at].count += 1;
                assert(self.weights() =~= old(self).weights().update(
                    at as int,
                    (old(self).weights()[at as int] + 1) as usize,
                ));
                assert(self.symbols() =~= old(self).symbols());
            },
            None => {
                proof {
                    lemma_sum_push(self.weights(), 1);
                }
                self.successors.push(Successor { symbol: duplicate(symbol), count: 1 });
                assert(self.weights() =~= old(self).weights().push(1));
                assert(self.symbols() =~= old(self).symbols().push(*symbol));
            },
        }
        self.total += 1;
        proof {
            assert forall|other: T| other != *symbol implies self.count(other) == old(self).count(
                other,
            ) by {
                if old(self).symbols().contains(other) {
                    let j = old(self).symbols().index_of(other);
                    old(self).lemma_count_at(j);
                    self.lemma_count_at(j);
                }
            }
            if old(self).symbols().contains(*symbol) {
                let j = old(self).symbols().index_of(*symbol);
                old(self).lemma_count_at(j);
                self.lemma_count_at(j);
            } else {
                let j = old(self).symbols().len() as int;
                self.lemma_count_at(j);
            }
        }
    }
}

} // verus!
