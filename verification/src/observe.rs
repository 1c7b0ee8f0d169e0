//! What a sequence of symbols shows: which symbol comes after which pair.

use vstd::prelude::*;

verus! {

/// Position `at` of `sequence` comes after `context`: the two symbols
/// before it are those of the context, in order.
pub open spec fn follows<T>(sequence: Seq<T>, at: int, context: (T, T)) -> bool {
    &&& 2 <= at < sequence.len()
    &&& sequence[at - 2] == context.0
    &&& sequence[at - 1] == context.1
}

/// The two symbols that stand before position `at` of `sequence`.
pub open spec fn context_before<T>(sequence: Seq<T>, at: int) -> (T, T) {
    (sequence[at - 2], sequence[at - 1])
}

/// How many positions of `sequence` below `upto` come after `context`.
pub open spec fn visits_before<T>(sequence: Seq<T>, context: (T, T), upto: int) -> nat
    decreases upto,
{
    if upto <= 2 {
        0
    } else if follows(sequence, upto - 1, context) {
        visits_before(sequence, context, upto - 1) + 1
    } else {
        visits_before(sequence, context, upto - 1)
    }
}

/// How many positions of `sequence` come after `context`.
pub open spec fn visits<T>(sequence: Seq<T>, context: (T, T)) -> nat {
    visits_before(sequence, context, sequence.len() as int)
}

/// How many positions of `sequence` below `upto` come after `context` and
/// hold `symbol`.
pub open spec fn transitions_before<T>(
    sequence: Seq<T>,
    context: (T, T),
    symbol: T,
    upto: int,
) -> nat
    decreases upto,
{
    if upto <= 2 {
        0
    } else if follows(sequence, upto - 1, context) && sequence[upto - 1] == symbol {
        transitions_before(sequence, context, symbol, upto - 1) + 1
    } else {
        transitions_before(sequence, context, symbol, upto - 1)
    }
}

/// How many positions of `sequence` come after `context` and hold `symbol`.
pub open spec fn transitions<T>(sequence: Seq<T>, context: (T, T), symbol: T) -> nat {
    transitions_before(sequence, context, symbol, sequence.len() as int)
}

/// The contexts that `sequence` visits below `upto`, appended to `known`
/// in the order in which they first come, none twice.
pub open spec fn contexts_seen<T>(known: Seq<(T, T)>, sequence: Seq<T>, upto: int) -> Seq<(T, T)>
    decreases upto,
{
    if upto <= 2 {
        known
    } else {
        let earlier = contexts_seen(known, sequence, upto - 1);
        let here = context_before(sequence, upto - 1);
        if follows(sequence, upto - 1, here) && !earlier.contains(here) {
            earlier.push(here)
        } else {
            earlier
        }
    }
}

/// The symbols that come after `context` in `sequence` below `upto`,
/// appended to `known` in the order in which they first come, none twice.
pub open spec fn successors_seen<T>(
    known: Seq<T>,
    sequence: Seq<T>,
    context: (T, T),
    upto: int,
) -> Seq<T>
    decreases upto,
{
    if upto <= 2 {
        known
    } else {
        let earlier = successors_seen(known, sequence, context, upto - 1);
        if follows(sequence, upto - 1, context) && !earlier.contains(sequence[upto - 1]) {
            earlier.push(sequence[upto - 1])
        } else {
            earlier
        }
    }
}

/// What was known stays in front of what is seen.
pub proof fn lemma_contexts_seen_keep_known<T>(known: Seq<(T, T)>, sequence: Seq<T>, upto: int)
    ensures
        known.is_prefix_of(contexts_seen(known, sequence, upto)),
    decreases upto,
{
    if upto > 2 {
        lemma_contexts_seen_keep_known(known, sequence, upto - 1);
    }
}

/// What was known stays in front of what is seen.
pub proof fn lemma_successors_seen_keep_known<T>(
    known: Seq<T>,
    sequence: Seq<T>,
    context: (T, T),
    upto: int,
)
    ensures
        known.is_prefix_of(successors_seen(known, sequence, context, upto)),
    decreases upto,
{
    if upto > 2 {
        lemma_successors_seen_keep_known(known, sequence, context, upto - 1);
    }
}

/// Looking at more positions never lowers the number of visits, and each
/// position adds one at most.
pub proof fn lemma_visits_grow<T>(sequence: Seq<T>, context: (T, T), lower: int, upper: int)
    requires
        lower <= upper,
    ensures
        visits_before(sequence, context, lower) <= visits_before(sequence, context, upper),
        visits_before(sequence, context, upper) <= visits_before(sequence, context, lower) + (upper
            - lower),
    decreases upper - lower,
{
    if lower < upper {
        lemma_visits_grow(sequence, context, lower, upper - 1);
    }
}

/// A sequence of `n` symbols visits a context `n - 2` times at most, and a
/// sequence of fewer than three symbols visits none.
pub proof fn lemma_visits_bounded<T>(sequence: Seq<T>, context: (T, T))
    ensures
        sequence.len() < 3 ==> visits(sequence, context) == 0,
        sequence.len() >= 2 ==> visits(sequence, context) <= sequence.len() - 2,
{
    if sequence.len() >= 2 {
        lemma_visits_grow(sequence, context, 2, sequence.len() as int);
    }
}

/// A context is visited exactly where some position comes after it.
pub proof fn lemma_visited_somewhere<T>(sequence: Seq<T>, context: (T, T), upto: int)
    ensures
        visits_before(sequence, context, upto) > 0 <==> exists|at: int|
            at < upto && follows(sequence, at, context),
    decreases upto,
{
    if upto > 2 {
        lemma_visited_somewhere(sequence, context, upto - 1);
    }
}

/// The transitions out of a context into one symbol are among the visits of
/// that context.
pub proof fn lemma_transitions_within_visits<T>(
    sequence: Seq<T>,
    context: (T, T),
    symbol: T,
    upto: int,
)
    ensures
        transitions_before(sequence, context, symbol, upto) <= visits_before(
            sequence,
            context,
            upto,
        ),
    decreases upto,
{
    if upto > 2 {
        lemma_transitions_within_visits(sequence, context, symbol, upto - 1);
    }
}

} // verus!
