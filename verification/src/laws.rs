//! What holds of tables that are built by folding sequences into them.

use crate::markov::Markov;
use crate::observe::follows;
use crate::observe::lemma_contexts_seen_keep_known;
use crate::observe::lemma_successors_seen_keep_known;
use crate::observe::lemma_transitions_within_visits;
use crate::observe::lemma_visited_somewhere;
use crate::observe::lemma_visits_bounded;
use crate::observe::transitions;
use crate::observe::visits;
use crate::sampling::weight_sum;
use vstd::prelude::*;

verus! {

/// In every well-formed table the total of a context is the sum of the
/// counts of its successors, and every count is that of a listed successor.
pub proof fn lemma_counts_are_consistent<T: Clone + Eq>(table: Markov<T>, context: (T, T))
    requires
        table.wf(),
    ensures
        table.total(context) == weight_sum(table.weights(context)),
        table.weights(context).len() == table.successors(context).len(),
        forall|at: int|
            #![trigger table.successors(context)[at]]
            0 <= at < table.successors(context).len() ==> table.count(
                context,
                table.successors(context)[at],
            ) == table.weights(context)[at],
{
    table.lemma_totals_are_sums();
    table.lemma_successors(context);
}

/// In every well-formed table no context has two entries, and no symbol
/// is listed twice among the successors of a context.
pub proof fn lemma_entries_are_distinct<T: Clone + Eq>(table: Markov<T>, context: (T, T))
    requires
        table.wf(),
    ensures
        table.contexts().no_duplicates(),
        table.successors(context).no_duplicates(),
        forall|symbol: T|
            table.successors(context).contains(symbol) <==> table.count(context, symbol) > 0,
{
    table.lemma_contexts_distinct();
    table.lemma_successors(context);
}

/// Folding a sequence into a table lowers no count and no total, and
/// removes no context.
pub proof fn lemma_ingest_grows<T: Clone + Eq>(
    before: Markov<T>,
    sequence: Seq<T>,
    after: Markov<T>,
)
    requires
        before.ingested(sequence, after),
    ensures
        before.contexts().is_prefix_of(after.contexts()),
        forall|context: (T, T)| before.has_context(context) ==> after.has_context(context),
        forall|context: (T, T)|
            #![trigger after.successors(context)]
            before.successors(context).is_prefix_of(after.successors(context)),
        forall|context: (T, T)|
            #![trigger after.total(context)]
            after.total(context) >= before.total(context),
        forall|context: (T, T), symbol: T|
            #![trigger after.count(context, symbol)]
            after.count(context, symbol) >= before.count(context, symbol),
{
    lemma_contexts_seen_keep_known(before.contexts(), sequence, sequence.len() as int);
    assert forall|context: (T, T)|
        #![trigger after.successors(context)]
        before.successors(context).is_prefix_of(after.successors(context)) by {
        lemma_successors_seen_keep_known(
            before.successors(context),
            sequence,
            context,
            sequence.len() as int,
        );
    }
}

/// After a sequence was folded in, the table has the contexts that it had
/// and those that stand before some symbol of the sequence, and no others.
pub proof fn lemma_contexts_after_ingest<T: Clone + Eq>(
    before: Markov<T>,
    sequence: Seq<T>,
    after: Markov<T>,
    context: (T, T),
)
    requires
        before.ingested(sequence, after),
    ensures
        after.has_context(context) <==> before.has_context(context) || exists|at: int|
            follows(sequence, at, context),
{
    lemma_visited_somewhere(sequence, context, sequence.len() as int);
}

/// A sequence of fewer than three symbols changes no count, no total and
/// no context.
pub proof fn lemma_short_ingest_changes_nothing<T: Clone + Eq>(
    before: Markov<T>,
    sequence: Seq<T>,
    after: Markov<T>,
)
    requires
        sequence.len() < 3,
        before.ingested(sequence, after),
    ensures
        after.contexts() == before.contexts(),
        forall|context: (T, T)|
            #![trigger after.successors(context)]
            after.successors(context) == before.successors(context),
        forall|context: (T, T)|
            #![trigger after.total(context)]
            after.total(context) == before.total(context),
        forall|context: (T, T), symbol: T|
            #![trigger after.count(context, symbol)]
            after.count(context, symbol) == before.count(context, symbol),
        after@ == before@,
{
    assert forall|context: (T, T)| visits(sequence, context) == 0 by {
        lemma_visits_bounded(sequence, context);
    }
    assert forall|context: (T, T), symbol: T| transitions(sequence, context, symbol) == 0 by {
        lemma_visits_bounded(sequence, context);
        lemma_transitions_within_visits(sequence, context, symbol, sequence.len() as int);
    }
    assert(after@ =~~= before@);
}

/// Folding the same sequence in a second time adds to every count and to
/// every total what the first time added.
pub proof fn lemma_twice_doubles<T: Clone + Eq>(
    before: Markov<T>,
    sequence: Seq<T>,
    once: Markov<T>,
    twice: Markov<T>,
)
    requires
        before.ingested(sequence, once),
        once.ingested(sequence, twice),
    ensures
        forall|context: (T, T), symbol: T|
            #![trigger twice.count(context, symbol)]
            twice.count(context, symbol) - before.count(context, symbol) == 2 * (once.count(
                context,
                symbol,
            ) - before.count(context, symbol)),
        forall|context: (T, T)|
            #![trigger twice.total(context)]
            twice.total(context) - before.total(context) == 2 * (once.total(context)
                - before.total(context)),
        forall|context: (T, T)| twice.has_context(context) <==> once.has_context(context),
{
}

/// The counts do not depend on the order in which two sequences are
/// folded in.
pub proof fn lemma_order_is_irrelevant<T: Clone + Eq>(
    before: Markov<T>,
    one: Seq<T>,
    other: Seq<T>,
    after_one: Markov<T>,
    one_then_other: Markov<T>,
    after_other: Markov<T>,
    other_then_one: Markov<T>,
)
    requires
        before.ingested(one, after_one),
        after_one.ingested(other, one_then_other),
        before.ingested(other, after_other),
        after_other.ingested(one, other_then_one),
    ensures
        forall|context: (T, T), symbol: T|
            #![trigger one_then_other.count(context, symbol)]
            one_then_other.count(context, symbol) == other_then_one.count(context, symbol),
        forall|context: (T, T)|
            #![trigger one_then_other.total(context)]
            one_then_other.total(context) == other_then_one.total(context),
        forall|context: (T, T)|
            one_then_other.has_context(context) <==> other_then_one.has_context(context),
        one_then_other@ == other_then_one@,
{
    assert(one_then_other@ =~~= other_then_one@);
}

} // verus!
