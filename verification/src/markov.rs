//! The transition table and the walks through it.

use crate::observe::context_before;
use crate::observe::contexts_seen;
use crate::observe::follows;
use crate::observe::lemma_transitions_within_visits;
use crate::observe::lemma_visits_bounded;
use crate::observe::lemma_visits_grow;
use crate::observe::successors_seen;
use crate::observe::transitions;
use crate::observe::transitions_before;
use crate::observe::visits;
use crate::observe::visits_before;
use crate::sampling::lemma_sum_bounds_each;
use crate::sampling::random_draw;
use crate::sampling::sample_weighted;
use crate::sampling::weight_sum;
use crate::symbol::duplicate;
use crate::symbol::same;
use crate::symbol::symbol_laws;
use crate::tally::Tally;
use vstd::prelude::*;
use vstd::slice::slice_subrange;

verus! {

/// A transition table of order two: for each pair of symbols that was seen
/// with a symbol after it, the symbols that came next and how often.
pub struct Markov<T> {
    entries: Vec<Tally<T>>,
}

impl<T: Clone + Eq> Markov<T> {
    /// The contexts of the table, each once, in the order in which they were
    /// first seen.
    pub closed spec fn contexts(&self) -> Seq<(T, T)> {
        Seq::new(self.entries@.len(), |k: int| self.entries@[k].context())
    }

    /// Whether the table has an entry for `context`.
    pub open spec fn has_context(&self, context: (T, T)) -> bool {
        self.contexts().contains(context)
    }

    /// How many observations were made after `context`: the total that the
    /// table keeps for it, and zero for a context that it does not have.
    pub closed spec fn total(&self, context: (T, T)) -> nat {
        if self.has_context(context) {
            self.entries@[self.contexts().index_of(context)].total as nat
        } else {
            0
        }
    }

    /// The symbols recorded after `context`, each once, in the order in
    /// which they were first seen after it.
    pub closed spec fn successors(&self, context: (T, T)) -> Seq<T> {
        if self.has_context(context) {
            self.entries@[self.contexts().index_of(context)].symbols()
        } else {
            Seq::empty()
        }
    }

    /// The count of each symbol of `successors`, position by position.
    pub closed spec fn weights(&self, context: (T, T)) -> Seq<usize> {
        if self.has_context(context) {
            self.entries@[self.contexts().index_of(context)].weights()
        } else {
            Seq::empty()
        }
    }

    /// How often `symbol` was seen after `context`; zero where the table
    /// has no record of it.
    pub open spec fn count(&self, context: (T, T), symbol: T) -> nat {
        if self.successors(context).contains(symbol) {
            self.weights(context)[self.successors(context).index_of(symbol)] as nat
        } else {
            0
        }
    }

    /// The table's invariant: no context has two entries, and each entry
    /// lists every successor once, with a positive count, and keeps the sum
    /// of those counts as its total.
    pub closed spec fn wf(&self) -> bool {
        &&& self.contexts().no_duplicates()
        &&& forall|k: int| 0 <= k < self.entries@.len() ==> (#[trigger] self.entries@[k]).wf()
    }

    /// Whether every total has room for the observations that `sequence`
    /// adds to it.
    pub open spec fn admits(&self, sequence: Seq<T>) -> bool {
        forall|context: (T, T)|
            #![trigger self.total(context)]
            self.total(context) + visits(sequence, context) <= usize::MAX
    }

    /// Whether `after` is this table with the observations of `sequence`
    /// added: every position of `sequence` from the third on counts once,
    /// for the symbol it holds, after the two symbols before it. Contexts
    /// and successors that are seen for the first time come after those
    /// that the table had.
    pub open spec fn ingested(&self, sequence: Seq<T>, after: Self) -> bool {
        &&& after.contexts() == contexts_seen(self.contexts(), sequence, sequence.len() as int)
        &&& forall|context: (T, T)|
            #![trigger after.successors(context)]
            after.successors(context) == successors_seen(
                self.successors(context),
                sequence,
                context,
                sequence.len() as int,
            )
        &&& forall|context: (T, T)|
            #![trigger after.has_context(context)]
            after.has_context(context) <==> self.has_context(context) || visits(sequence, context)
                > 0
        &&& forall|context: (T, T)|
            #![trigger after.total(context)]
            after.total(context) == self.total(context) + visits(sequence, context)
        &&& forall|context: (T, T), symbol: T|
            #![trigger after.count(context, symbol)]
            after.count(context, symbol) == self.count(context, symbol) + transitions(
                sequence,
                context,
                symbol,
            )
    }

    /// Whether a walk has come to its end: it is too short to hold a
    /// context, or the table has no successor for its last two symbols.
    pub open spec fn dead_end(&self, walk: Seq<T>) -> bool {
        ||| walk.len() < 2
        ||| !self.has_context(context_before(walk, walk.len() as int))
        ||| self.successors(context_before(walk, walk.len() as int)).len() == 0
    }

    /// Whether the symbol at position `at` of `walk` is one that the table
    /// has seen after the two symbols before it.
    pub open spec fn recorded(&self, walk: Seq<T>, at: int) -> bool {
        at >= 2 && self.count(context_before(walk, at), walk[at]) > 0
    }

    /// Whether `walk` is `start` with at most `limit` symbols appended by a
    /// walk through the table: each appended symbol is a recorded successor
    /// of the two symbols before it, and a walk that stops short of `limit`
    /// has come to a dead end.
    pub open spec fn extends(&self, start: Seq<T>, limit: nat, walk: Seq<T>) -> bool {
        &&& start.is_prefix_of(walk)
        &&& walk.len() <= start.len() + limit
        &&& forall|at: int| start.len() <= at < walk.len() ==> #[trigger] self.recorded(walk, at)
        &&& walk.len() < start.len() + limit ==> self.dead_end(walk)
    }

    /// What the table says of the context of its `k`-th entry is what that
    /// entry holds.
    proof fn lemma_entry(&self, k: int)
        requires
            self.contexts().no_duplicates(),
            0 <= k < self.entries@.len(),
        ensures
            self.has_context(self.entries@[k].context()),
            self.contexts().index_of(self.entries@[k].context()) == k,
            self.total(self.entries@[k].context()) == self.entries@[k].total,
            self.successors(self.entries@[k].context()) == self.entries@[k].symbols(),
            self.weights(self.entries@[k].context()) == self.entries@[k].weights(),
            forall|symbol: T|
                self.count(self.entries@[k].context(), symbol) == self.entries@[k].count(symbol),
    {
        assert(self.contexts()[k] == self.entries@[k].context());
    }

    /// The total kept for a context is the sum of the counts of its
    /// successors.
    pub proof fn lemma_totals_are_sums(&self)
        requires
            self.wf(),
        ensures
            forall|context: (T, T)|
                #![trigger self.total(context)]
                self.total(context) == weight_sum(self.weights(context)),
    {
        assert forall|context: (T, T)|
            #![trigger self.total(context)]
            self.total(context) == weight_sum(self.weights(context)) by {
            if self.has_context(context) {
                self.lemma_entry(self.contexts().index_of(context));
            }
        }
    }

    /// How the successors of a context, their weights and their counts
    /// belong together.
    pub proof fn lemma_successors(&self, context: (T, T))
        requires
            self.wf(),
        ensures
            self.successors(context).no_duplicates(),
            self.weights(context).len() == self.successors(context).len(),
            forall|at: int|
                #![trigger self.weights(context)[at]]
                #![trigger self.successors(context)[at]]
                0 <= at < self.successors(context).len() ==> self.weights(context)[at] > 0
                    && self.count(context, self.successors(context)[at]) == self.weights(
                    context,
                )[at],
            forall|symbol: T|
                self.count(context, symbol) > 0 <==> self.successors(context).contains(symbol),
            !self.has_context(context) ==> self.successors(context).len() == 0 && self.total(
                context,
            ) == 0,
    {
        if self.has_context(context) {
            let k = self.contexts().index_of(context);
            self.lemma_entry(k);
            let entry = self.entries@[k];
            assert forall|at: int| 0 <= at < entry.symbols().len() implies entry.weights()[at] > 0
                && entry.count(entry.symbols()[at]) == entry.weights()[at] by {
                entry.lemma_count_at(at);
            }
            assert forall|symbol: T| entry.symbols().contains(symbol) implies entry.count(symbol)
                > 0 by {
                entry.lemma_count_at(entry.symbols().index_of(symbol));
            }
        }
    }

    /// The contexts of a table are pairwise different.
    pub proof fn lemma_contexts_distinct(&self)
        requires
            self.wf(),
        ensures
            self.contexts().no_duplicates(),
    {
    }

    /// A total is kept in a machine word.
    pub proof fn lemma_total_fits(&self, context: (T, T))
        ensures
            self.total(context) <= usize::MAX,
    {
    }

    /// A table with no entries.
    pub fn new() -> (table: Self)
        ensures
            table.wf(),
            table.contexts().len() == 0,
            forall|context: (T, T)| table.total(context) == 0,
            forall|context: (T, T), symbol: T| table.count(context, symbol) == 0,
            forall|sequence: Seq<T>|
                sequence.len() <= usize::MAX ==> #[trigger] table.admits(sequence),
    {
        let table = Markov { entries: Vec::new() };
        proof {
            assert forall|sequence: Seq<T>| sequence.len() <= usize::MAX implies #[trigger] table.admits(
                sequence,
            ) by {
                assert forall|context: (T, T)|
                    #![trigger table.total(context)]
                    table.total(context) + visits(sequence, context) <= usize::MAX by {
                    lemma_visits_bounded(sequence, context);
                }
            }
        }
        table
    }

    /// Where the entry of the context `(first, second)` stands, if the table
    /// has one.
    fn find(&self, first: &T, second: &T) -> (found: Option<usize>)
        requires
            symbol_laws::<T>(),
        ensures
            match found {
                Some(k) => k < self.contexts().len() && self.contexts()[k as int] == (
                    *first,
                    *second,
                ),
                None => !self.has_context((*first, *second)),
            },
    {
        let mut k: usize = 0;
        while k < self.entries.len()
            invariant
                symbol_laws::<T>(),
                k <= self.entries@.len(),
                forall|j: int| 0 <= j < k ==> self.contexts()[j] != (*first, *second),
            decreases self.entries@.len() - k,
        {
            if same(&self.entries[k].first, first) && same(&self.entries[k].second, second) {
                return Some(k);
            }
            k += 1;
        }
        None
    }

    /// Records that `next` was seen after the context `(first, second)`.
    fn observe(&mut self, first: &T, second: &T, next: &T)
        requires
            symbol_laws::<T>(),
            old(self).wf(),
            old(self).total((*first, *second)) < usize::MAX,
        ensures
            final(self).wf(),
            final(self).contexts() == if old(self).has_context((*first, *second)) {
                old(self).contexts()
            } else {
                old(self).contexts().push((*first, *second))
            },
            forall|context: (T, T)|
                #![trigger final(self).successors(context)]
                final(self).successors(context) == if context == (*first, *second) && !old(
                    self,
                ).successors(context).contains(*next) {
                    old(self).successors(context).push(*next)
                } else {
                    old(self).successors(context)
                },
            forall|context: (T, T)|
                final(self).has_context(context) <==> old(self).has_context(context) || context
                    == (*first, *second),
            forall|context: (T, T)|
                #[trigger] final(self).total(context) == old(self).total(context) + if context
                    == (*first, *second) {
                    1nat
                } else {
                    0nat
                },
            forall|context: (T, T), symbol: T|
                #[trigger] final(self).count(context, symbol) == old(self).count(context, symbol)
                    + if context == (*first, *second) && symbol == *next {
                    1nat
                } else {
                    0nat
                },
    {
        let ghost here = (*first, *second);
        let slot = match self.find(first, second) {
            Some(k) => k,
            None => {
                self.entries.push(Tally::empty(duplicate(first), duplicate(second)));
                self.entries.len() - 1
            },
        };
        let ghost before = *self;
        proof {
            if !old(self).has_context(here) {
                assert(before.contexts() =~= old(self).contexts().push(here));
            }
            before.lemma_entry(slot as int);
            assert forall|context: (T, T)| context != here implies before.total(context) == old(
                self,
            ).total(context) && before.successors(context) == old(self).successors(context)
                && before.weights(context) == old(self).weights(context) by {
                if old(self).has_context(context) {
                    let k = old(self).contexts().index_of(context);
                    old(self).lemma_entry(k);
                    before.lemma_entry(k);
                }
            }
            if old(self).has_context(here) {
                old(self).lemma_entry(slot as int);
            }
        }
        self.entries[slot].record(next);
        proof {
            assert(self.contexts() =~= before.contexts());
            self.lemma_entry(slot as int);
            assert forall|context: (T, T)| context != here implies self.total(context)
                == before.total(context) && self.successors(context) == before.successors(context)
                && self.weights(context) == before.weights(context) by {
                if before.has_context(context) {
                    let k = before.contexts().index_of(context);
                    before.lemma_entry(k);
                    self.lemma_entry(k);
                }
            }
            assert forall|context: (T, T)|
                self.has_context(context) <==> old(self).has_context(context) || context
                    == here by {
                if old(self).has_context(context) {
                    let k = old(self).contexts().index_of(context);
                    assert(self.contexts()[k] == context);
                }
            }
            assert forall|context: (T, T), symbol: T|
                #[trigger] self.count(context, symbol) == old(self).count(context, symbol)
                    + if context == here && symbol == *next {
                    1nat
                } else {
                    0nat
                } by {
                if context == here {
                    assert(before.count(here, symbol) == before.entries@[slot as int].count(
                        symbol,
                    ));
                }
            }
        }
    }

    /// Folds a sequence of symbols into the table: each symbol from the
    /// third on is counted as a successor of the two symbols before it. A
    /// sequence of fewer than three symbols shows no transition and leaves
    /// the table as it is.
    pub fn add_inscription(&mut self, inscription: Vec<T>)
        requires
            symbol_laws::<T>(),
            old(self).wf(),
            old(self).admits(inscription@),
        ensures
            final(self).wf(),
            old(self).ingested(inscription@, *final(self)),
            inscription@.len() < 3 ==> *final(self) == *old(self),
            forall|context: (T, T)|
                old(self).has_context(context) ==> final(self).has_context(context),
            forall|context: (T, T)|
                #![trigger final(self).total(context)]
                final(self).total(context) >= old(self).total(context),
            forall|context: (T, T), symbol: T|
                #![trigger final(self).count(context, symbol)]
                final(self).count(context, symbol) >= old(self).count(context, symbol),
            forall|context: (T, T)|
                #![trigger final(self).total(context)]
                final(self).total(context) == weight_sum(final(self).weights(context)),
    {
        let ghost sequence = inscription@;
        if inscription.len() < 3 {
            proof {
                assert forall|context: (T, T)| visits(sequence, context) == 0 by {
                    lemma_visits_bounded(sequence, context);
                }
                assert forall|context: (T, T), symbol: T|
                    transitions(sequence, context, symbol) == 0 by {
                    lemma_visits_bounded(sequence, context);
                    lemma_transitions_within_visits(
                        sequence,
                        context,
                        symbol,
                        sequence.len() as int,
                    );
                }
                self.lemma_totals_are_sums();
            }
            return;
        }
        let mut at: usize = 2;
        while at < inscription.len()
            invariant
                symbol_laws::<T>(),
                sequence == inscription@,
                2 <= at <= sequence.len(),
                self.wf(),
                old(self).admits(sequence),
                self.contexts() == contexts_seen(old(self).contexts(), sequence, at as int),
                forall|context: (T, T)|
                    #![trigger self.successors(context)]
                    self.successors(context) == successors_seen(
                        old(self).successors(context),
                        sequence,
                        context,
                        at as int,
                    ),
                forall|context: (T, T)|
                    #![trigger self.has_context(context)]
                    self.has_context(context) <==> old(self).has_context(context) || visits_before(
                        sequence,
                        context,
                        at as int,
                    ) > 0,
                forall|context: (T, T)|
                    #![trigger self.total(context)]
                    self.total(context) == old(self).total(context) + visits_before(
                        sequence,
                        context,
                        at as int,
                    ),
                forall|context: (T, T), symbol: T|
                    #![trigger self.count(context, symbol)]
                    self.count(context, symbol) == old(self).count(context, symbol)
                        + transitions_before(sequence, context, symbol, at as int),
            decreases sequence.len() - at,
        {
            let ghost here = (sequence[at - 2], sequence[at - 1]);
            proof {
                lemma_visits_grow(sequence, here, at + 1, sequence.len() as int);
            }
            self.observe(&inscription[at - 2], &inscription[at - 1], &inscription[at]);
            at += 1;
        }
        proof {
            self.lemma_totals_are_sums();
        }
    }

    /// The number of contexts in the table.
    pub fn len(&self) -> (n: usize)
        ensures
            n == self.contexts().len(),
    {
        self.entries.len()
    }

    /// Whether the table has no context.
    pub fn is_empty(&self) -> (empty: bool)
        ensures
            empty == (self.contexts().len() == 0),
    {
        self.entries.len() == 0
    }

    /// Whether `source` is a pair of symbols that the table has as a
    /// context.
    pub fn contains(&self, source: &[T]) -> (known: bool)
        requires
            symbol_laws::<T>(),
        ensures
            known == (source@.len() == 2 && self.has_context((source@[0], source@[1]))),
    {
        match self.lookup(source) {
            Some(_) => true,
            None => false,
        }
    }

    /// How many observations were made after the context `source`; zero
    /// where `source` is no context of the table.
    pub fn total_of(&self, source: &[T]) -> (total: usize)
        requires
            symbol_laws::<T>(),
            self.wf(),
        ensures
            total == if source@.len() == 2 {
                self.total((source@[0], source@[1]))
            } else {
                0
            },
    {
        match self.lookup(source) {
            Some(k) => {
                proof {
                    self.lemma_entry(k as int);
                }
                self.entries[k].total
            },
            None => 0,
        }
    }

    /// How often `symbol` was seen after the context `source`; zero where
    /// the table has no record of it.
    pub fn count_of(&self, source: &[T], symbol: &T) -> (count: usize)
        requires
            symbol_laws::<T>(),
            self.wf(),
        ensures
            count == if source@.len() == 2 {
                self.count((source@[0], source@[1]), *symbol)
            } else {
                0
            },
    {
        match self.lookup(source) {
            Some(k) => {
                proof {
                    self.lemma_entry(k as int);
                }
                let entry = &self.entries[k];
                match entry.position(symbol) {
                    Some(at) => {
                        proof {
                            entry.lemma_count_at(at as int);
                        }
                        entry.successors[at].count
                    },
                    None => 0,
                }
            },
            None => 0,
        }
    }

    /// Whether every total can grow by `extra` observations. A sequence of
    /// `n` symbols adds `n - 2` observations to a context at most, so a
    /// table with room for that many admits it.
    pub fn has_room(&self, extra: usize) -> (room: bool)
        requires
            self.wf(),
        ensures
            room == forall|context: (T, T)|
                #![trigger self.total(context)]
                self.total(context) + extra <= usize::MAX,
            room ==> forall|sequence: Seq<T>|
                sequence.len() <= extra + 2 ==> #[trigger] self.admits(sequence),
    {
        let mut k: usize = 0;
        while k < self.entries.len()
            invariant
                self.wf(),
                k <= self.entries@.len(),
                forall|j: int| 0 <= j < k ==> (#[trigger] self.entries@[j]).total + extra
                    <= usize::MAX,
            decreases self.entries@.len() - k,
        {
            if self.entries[k].total > usize::MAX - extra {
                proof {
                    self.lemma_entry(k as int);
                }
                return false;
            }
            k += 1;
        }
        proof {
            assert forall|context: (T, T)|
                #![trigger self.total(context)]
                self.total(context) + extra <= usize::MAX by {
                if self.has_context(context) {
                    self.lemma_entry(self.contexts().index_of(context));
                }
            }
            assert forall|sequence: Seq<T>| sequence.len() <= extra + 2 implies #[trigger] self.admits(
                sequence,
            ) by {
                assert forall|context: (T, T)|
                    #![trigger self.total(context)]
                    self.total(context) + visits(sequence, context) <= usize::MAX by {
                    lemma_visits_bounded(sequence, context);
                }
            }
        }
        true
    }

    /// Where the entry of the context that `source` spells stands, if
    /// `source` has two symbols and the table has that context.
    fn lookup(&self, source: &[T]) -> (found: Option<usize>)
        requires
            symbol_laws::<T>(),
        ensures
            match found {
                Some(k) => {
                    &&& source@.len() == 2
                    &&& k < self.contexts().len()
                    &&& self.contexts()[k as int] == (source@[0], source@[1])
                },
                None => source@.len() != 2 || !self.has_context((source@[0], source@[1])),
            },
    {
        if source.len() != 2 {
            return None;
        }
        self.find(&source[0], &source[1])
    }

    /// The weights from which a successor of the context `source` is
    /// drawn: the count of each recorded successor, in the table's order.
    /// There are none where `source` is no context of the table.
    pub fn weights_of(&self, source: &[T]) -> (weights: Vec<usize>)
        requires
            symbol_laws::<T>(),
            self.wf(),
        ensures
            weights@ == if source@.len() == 2 {
                self.weights((source@[0], source@[1]))
            } else {
                Seq::empty()
            },
    {
        let mut weights: Vec<usize> = Vec::new();
        if let Some(k) = self.lookup(source) {
            proof {
                self.lemma_entry(k as int);
            }
            let entry = &self.entries[k];
            let mut at: usize = 0;
            while at < entry.successors.len()
                invariant
                    at <= entry.successors@.len(),
                    weights@ =~= entry.weights().take(at as int),
                decreases entry.successors@.len() - at,
            {
                weights.push(entry.successors[at].count);
                at += 1;
            }
        }
        weights
    }

    /// The successor of the context `source` that stands at `index` in the
    /// table's order, where there is one.
    pub fn letter_at(&self, source: &[T], index: usize) -> (letter: Option<T>)
        requires
            symbol_laws::<T>(),
            self.wf(),
        ensures
            letter == if source@.len() == 2 && index < self.successors(
                (source@[0], source@[1]),
            ).len() {
                Some(self.successors((source@[0], source@[1]))[index as int])
            } else {
                None
            },
    {
        match self.lookup(source) {
            None => None,
            Some(k) => {
                proof {
                    self.lemma_entry(k as int);
                }
                let entry = &self.entries[k];
                if index < entry.successors.len() {
                    Some(duplicate(&entry.successors[index].symbol))
                } else {
                    None
                }
            },
        }
    }

    /// Draws a successor of the context `source`, each recorded successor
    /// with a probability proportional to its count. There is none to draw
    /// where `source` is not a pair of symbols, or a pair that the table has
    /// no successor for.
    pub fn get_letter(&self, source: &[T]) -> (letter: Option<T>)
        requires
            symbol_laws::<T>(),
            self.wf(),
        ensures
            letter.is_some() <==> source@.len() == 2 && self.successors(
                (source@[0], source@[1]),
            ).len() > 0,
            letter matches Some(symbol) ==> self.count((source@[0], source@[1]), symbol) > 0,
    {
        let weights = self.weights_of(source);
        if weights.len() == 0 {
            proof {
                self.lemma_successors((source@[0], source@[1]));
            }
            return None;
        }
        proof {
            let context = (source@[0], source@[1]);
            self.lemma_successors(context);
            self.lemma_totals_are_sums();
            lemma_sum_bounds_each(self.weights(context), 0);
            assert(self.total(context) <= usize::MAX) by {
                self.lemma_total_fits(context);
            }
        }
        let index = sample_weighted(&weights);
        self.letter_at(source, index)
    }

    /// The context at which a walk starts for the random number `draw`:
    /// the contexts take turns as `draw` counts up, so a uniform draw picks
    /// each of them equally often. An empty table has none.
    pub fn start_context(&self, draw: usize) -> (start: Vec<T>)
        requires
            symbol_laws::<T>(),
        ensures
            self.contexts().len() == 0 ==> start@.len() == 0,
            self.contexts().len() > 0 ==> start@ == seq![
                self.contexts()[draw as int % self.contexts().len() as int].0,
                self.contexts()[draw as int % self.contexts().len() as int].1,
            ],
    {
        let mut start: Vec<T> = Vec::new();
        if self.entries.len() == 0 {
            return start;
        }
        let k = draw % self.entries.len();
        start.push(duplicate(&self.entries[k].first));
        start.push(duplicate(&self.entries[k].second));
        start
    }

    /// Walks on from `start`: up to `n` times, draws a successor of the
    /// last two symbols and appends it. The walk ends early where there is
    /// no successor to draw.
    pub fn go_from(&self, start: Vec<T>, n: usize) -> (walk: Vec<T>)
        requires
            symbol_laws::<T>(),
            self.wf(),
        ensures
            self.extends(start@, n as nat, walk@),
    {
        let ghost begin = start@;
        let mut walk = start;
        let mut step: usize = 0;
        while step < n
            invariant
                symbol_laws::<T>(),
                self.wf(),
                step <= n,
                walk@.len() == begin.len() + step,
                begin.is_prefix_of(walk@),
                forall|at: int| begin.len() <= at < walk@.len() ==> #[trigger] self.recorded(
                    walk@,
                    at,
                ),
            ensures
                self.extends(begin, n as nat, walk@),
            decreases n - step,
        {
            let length = walk.len();
            if length < 2 {
                break;
            }
            let ghost before = walk@;
            let source = slice_subrange(walk.as_slice(), length - 2, length);
            match self.get_letter(source) {
                None => {
                    proof {
                        self.lemma_successors(context_before(before, length as int));
                    }
                    break;
                },
                Some(letter) => {
                    walk.push(letter);
                },
            }
            proof {
                assert forall|at: int| begin.len() <= at < walk@.len() implies #[trigger] self.recorded(
                    walk@,
                    at,
                ) by {
                    if at < length {
                        assert(self.recorded(before, at));
                    }
                }
            }
            step += 1;
        }
        walk
    }

    /// Generates a sequence: starts at a context of the table, each with
    /// the same probability, and walks on for up to `n` symbols. An empty
    /// table gives an empty sequence.
    pub fn go(&self, n: usize) -> (walk: Vec<T>)
        requires
            symbol_laws::<T>(),
            self.wf(),
        ensures
            self.contexts().len() == 0 ==> walk@.len() == 0,
            self.contexts().len() > 0 ==> {
                &&& 2 <= walk@.len() <= n + 2
                &&& self.has_context(context_before(walk@, 2))
                &&& forall|at: int| 2 <= at < walk@.len() ==> #[trigger] self.recorded(walk@, at)
                &&& walk@.len() < n + 2 ==> self.dead_end(walk@)
            },
    {
        if self.entries.len() == 0 {
            return Vec::new();
        }
        let draw = random_draw();
        let start = self.start_context(draw);
        let walk = self.go_from(start, n);
        walk
    }
}

impl<T: Clone + Eq> View for Markov<T> {
    type V = Map<(T, T), Map<T, nat>>;

    /// The table as a map: each context that it has, to the count of each
    /// symbol seen after it.
    open spec fn view(&self) -> Map<(T, T), Map<T, nat>> {
        Map::new(
            |context: (T, T)| self.has_context(context),
            |context: (T, T)|
                Map::new(
                    |symbol: T| self.count(context, symbol) > 0,
                    |symbol: T| self.count(context, symbol),
                ),
        )
    }
}

impl<T: Clone + Eq> Default for Markov<T> {
    /// A table with no entries.
    fn default() -> (table: Self)
        ensures
            table.wf(),
            table.contexts().len() == 0,
            forall|context: (T, T)| table.total(context) == 0,
            forall|context: (T, T), symbol: T| table.count(context, symbol) == 0,
            forall|sequence: Seq<T>|
                sequence.len() <= usize::MAX ==> #[trigger] table.admits(sequence),
    {
        Markov::new()
    }
}

} // verus!
