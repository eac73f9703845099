//! What holds of every automaton: how the step function reads an edge
//! list, that the dead state is never left, and how a line is classified.

use crate::automaton::first_admitting;
use crate::automaton::none_admitting;
use crate::automaton::scan;
use crate::automaton::Classification;
use crate::automaton::DfaModel;
use crate::automaton::StateId;
use crate::automaton::TransitionDesc;
use crate::automaton::TransitionList;
use vstd::prelude::*;

verus! {

/// The first edge in list order that admits the input decides the step.
pub proof fn lemma_scan_first_wins(
    list: TransitionList,
    input: u8,
    fallback: StateId,
    index: int,
)
    requires
        first_admitting(list, input, index),
    ensures
        scan(list, input, fallback) == list[index].target(),
    decreases list.len(),
{
    if index > 0 {
        let rest = list.drop_first();
        assert(!list[0].admits(input));
        assert(first_admitting(rest, input, index - 1)) by {
            assert forall|j: int| 0 <= j < index - 1 implies !(#[trigger] rest[j]).admits(
                input,
            ) by {
                assert(rest[j] == list[j + 1]);
            }
        }
        lemma_scan_first_wins(rest, input, fallback, index - 1);
    }
}

/// Where no edge admits the input, the step falls through.
pub proof fn lemma_scan_falls_through(list: TransitionList, input: u8, fallback: StateId)
    requires
        none_admitting(list, input),
    ensures
        scan(list, input, fallback) == fallback,
    decreases list.len(),
{
    if list.len() > 0 {
        let rest = list.drop_first();
        assert(!list[0].admits(input));
        assert(none_admitting(rest, input)) by {
            assert forall|j: int| 0 <= j < rest.len() implies !(#[trigger] rest[j]).admits(
                input,
            ) by {
                assert(rest[j] == list[j + 1]);
            }
        }
        lemma_scan_falls_through(rest, input, fallback);
    }
}

/// A step yields the fallback or the target of an edge of the list.
pub proof fn lemma_scan_result(list: TransitionList, input: u8, fallback: StateId)
    ensures
        scan(list, input, fallback) == fallback || exists|i: int|
            0 <= i < list.len() && (#[trigger] list[i]).target() == scan(list, input, fallback),
    decreases list.len(),
{
    if list.len() > 0 {
        if list[0].admits(input) {
            assert(list[0].target() == scan(list, input, fallback));
        } else {
            let rest = list.drop_first();
            lemma_scan_result(rest, input, fallback);
            if scan(rest, input, fallback) != fallback {
                let i = choose|i: int|
                    0 <= i < rest.len() && (#[trigger] rest[i]).target() == scan(
                        rest,
                        input,
                        fallback,
                    );
                assert(list[i + 1] == rest[i]);
            }
        }
    }
}

/// The step out of a state is decided by the state's own edge list, the
/// input and the dead state: two automata that agree on these agree on the
/// step.
pub proof fn lemma_step_reads_own_list(a: DfaModel, b: DfaModel, current: StateId, input: u8)
    requires
        a.table.contains_key(current),
        b.table.contains_key(current),
        a.table[current] == b.table[current],
        a.dead == b.dead,
    ensures
        a.step(current, input) == b.step(current, input),
{
}

/// Equal automata run through equal states and classify every line alike.
pub proof fn lemma_equal_automata_agree(a: DfaModel, b: DfaModel, from: StateId, input: Seq<u8>)
    requires
        a.start == b.start,
        a.dead == b.dead,
        a.matches =~= b.matches,
        a.table =~= b.table,
    ensures
        a.run(from, input) == b.run(from, input),
        a.classify(input) == b.classify(input),
{
    assert(a == b);
}

/// From a list that holds one byte's edge before an edge for every byte,
/// the byte goes to the first target and every other byte to the second.
pub proof fn lemma_specific_edge_shadows_broad_edge(
    a: DfaModel,
    q: StateId,
    byte: u8,
    specific: StateId,
    broad: StateId,
    input: u8,
)
    requires
        a.table.contains_key(q),
        a.table[q] == seq![
            TransitionDesc::Match(byte, specific),
            TransitionDesc::Range(0u8, 255u8, broad),
        ],
    ensures
        a.step(q, byte) == specific,
        input != byte ==> a.step(q, input) == broad,
{
    let list = a.table[q];
    assert(first_admitting(list, byte, 0));
    lemma_scan_first_wins(list, byte, a.dead, 0);
    if input != byte {
        assert(first_admitting(list, input, 1)) by {
            assert(!list[0].admits(input));
            assert(list[1].admits(input));
        }
        lemma_scan_first_wins(list, input, a.dead, 1);
    }
}

/// A step from a state of a closed table stays within the table.
pub proof fn lemma_step_stays_in_table(a: DfaModel, current: StateId, input: u8)
    requires
        a.closed(),
    ensures
        a.table.contains_key(a.step(current, input)),
{
    if a.table.contains_key(current) {
        let list = a.table[current];
        lemma_scan_result(list, input, a.dead);
        if scan(list, input, a.dead) != a.dead {
            let i = choose|i: int|
                0 <= i < list.len() && (#[trigger] list[i]).target() == scan(list, input, a.dead);
            assert(a.table.contains_key(a.table[current][i].target()));
        }
    }
}

/// A run from a state of a closed table stays within the table.
pub proof fn lemma_run_stays_in_table(a: DfaModel, from: StateId, input: Seq<u8>)
    requires
        a.closed(),
        a.table.contains_key(from),
    ensures
        a.table.contains_key(a.run(from, input)),
    decreases input.len(),
{
    if input.len() > 0 {
        lemma_step_stays_in_table(a, a.run(from, input.drop_last()), input.last());
    }
}

/// Reading one more byte is one more step.
pub proof fn lemma_run_extends(a: DfaModel, from: StateId, input: Seq<u8>, n: int)
    requires
        0 <= n < input.len(),
    ensures
        a.run(from, input.take(n + 1)) == a.step(a.run(from, input.take(n)), input[n]),
{
    let longer = input.take(n + 1);
    assert(longer.drop_last() =~= input.take(n));
    assert(longer.last() == input[n]);
}

/// Once a run has reached the dead state it stays there, whatever follows.
pub proof fn lemma_dead_absorbs(a: DfaModel, from: StateId, input: Seq<u8>, n: int)
    requires
        a.dead_absorbs(),
        0 <= n <= input.len(),
        a.run(from, input.take(n)) == a.dead,
    ensures
        a.run(from, input) == a.dead,
    decreases input.len() - n,
{
    if n == input.len() {
        assert(input.take(n) =~= input);
    } else {
        lemma_run_extends(a, from, input, n);
        assert(a.step(a.dead, input[n]) == a.dead);
        lemma_dead_absorbs(a, from, input, n + 1);
    }
}

/// A line is classified as a full match exactly when it belongs to the
/// language of the automaton.
pub proof fn lemma_full_iff_accepted(a: DfaModel, line: Seq<u8>)
    ensures
        a.classify(line) == Classification::Full <==> a.accepts(line),
{
}

/// The empty line is a full match exactly when the start state is a match
/// state, and is never a partial match.
pub proof fn lemma_empty_line(a: DfaModel)
    ensures
        a.classify(Seq::<u8>::empty()) == Classification::Full <==> a.matches.contains(a.start),
        a.classify(Seq::<u8>::empty()) != Classification::Partial,
{
}

} // verus!
