//! Building an automaton from its external description: a start state, a
//! list of match states and a flat list of transition records.

use crate::automaton::assemble;
use crate::automaton::DfaModel;
use crate::automaton::StateId;
use crate::automaton::TransitionDesc;
use crate::automaton::TransitionList;
use crate::automaton::DEAD_STATE;
use crate::dfa::lists_of;
use crate::dfa::state_set;
use crate::dfa::Dfa;
use crate::dfa::TransitionTable;
use crate::error::MonitorError;
use std::collections::HashMap;
use vstd::prelude::*;

verus! {

broadcast use vstd::std_specs::hash::group_hash_axioms;

/// One record of a description: on a byte between `range_start` and
/// `range_end`, `curr_state` goes to `next_state`.
#[derive(Clone, Copy, Debug, PartialEq, Eq, Structural)]
pub struct JsonTransition {
    pub curr_state: StateId,
    pub range_start: u8,
    pub range_end: u8,
    pub next_state: StateId,
}

/// The description of an automaton as it is exchanged with its builder.
#[derive(Debug)]
pub struct JsonDfa {
    pub start_state: StateId,
    pub match_states: Vec<StateId>,
    pub transition_table: Vec<JsonTransition>,
}

impl JsonTransition {
    /// The edge a record stands for: a single-byte edge where both ends of
    /// the range are the same byte, a range edge otherwise.
    pub open spec fn edge(self) -> TransitionDesc {
        if self.range_start == self.range_end {
            TransitionDesc::Match(self.range_start, self.next_state)
        } else {
            TransitionDesc::Range(self.range_start, self.range_end, self.next_state)
        }
    }

    /// Executable form of [`JsonTransition::edge`].
    pub fn to_transition(&self) -> (edge: TransitionDesc)
        ensures
            edge == self.edge(),
    {
        if self.range_start == self.range_end {
            TransitionDesc::Match(self.range_start, self.next_state)
        } else {
            TransitionDesc::Range(self.range_start, self.range_end, self.next_state)
        }
    }
}

/// The edges of the records whose source is `source`, in the order of the
/// records.
pub open spec fn edges_from(records: Seq<JsonTransition>, source: StateId) -> TransitionList
    decreases records.len(),
{
    if records.len() == 0 {
        Seq::empty()
    } else if records.last().curr_state == source {
        edges_from(records.drop_last(), source).push(records.last().edge())
    } else {
        edges_from(records.drop_last(), source)
    }
}

/// Whether some record has `s` as its source.
pub open spec fn is_source(records: Seq<JsonTransition>, s: StateId) -> bool {
    exists|j: int| 0 <= j < records.len() && (#[trigger] records[j]).curr_state == s
}

/// Whether some record leads to `s`.
pub open spec fn is_destination(records: Seq<JsonTransition>, s: StateId) -> bool {
    exists|j: int| 0 <= j < records.len() && (#[trigger] records[j]).next_state == s
}

/// The table that a list of records stands for: every state that a record
/// names has an entry, and the entry holds the state's edges in the order of
/// the records.
pub open spec fn grouped(records: Seq<JsonTransition>) -> Map<StateId, TransitionList> {
    Map::new(
        |s: StateId| is_source(records, s) || is_destination(records, s),
        |s: StateId| edges_from(records, s),
    )
}

/// The automaton that a description stands for.
pub open spec fn described(
    start_state: StateId,
    match_states: Seq<StateId>,
    records: Seq<JsonTransition>,
) -> DfaModel {
    assemble(start_state, match_states.to_set(), grouped(records))
}

/// A state has edges in the grouped records exactly when it is the source
/// of a record, and every such edge comes from a record with that source.
pub proof fn lemma_edges_from(records: Seq<JsonTransition>, source: StateId)
    ensures
        edges_from(records, source).len() > 0 <==> is_source(records, source),
        forall|i: int|
            0 <= i < edges_from(records, source).len() ==> is_destination(
                records,
                (#[trigger] edges_from(records, source)[i]).target(),
            ),
    decreases records.len(),
{
    if records.len() > 0 {
        let rest = records.drop_last();
        lemma_edges_from(rest, source);
        if is_source(rest, source) {
            let j = choose|j: int| 0 <= j < rest.len() && (#[trigger] rest[j]).curr_state == source;
            assert(records[j].curr_state == source);
        }
        if is_source(records, source) && records.last().curr_state != source {
            let j = choose|j: int|
                0 <= j < records.len() && (#[trigger] records[j]).curr_state == source;
            assert(rest[j].curr_state == source);
        }
        assert forall|i: int| 0 <= i < edges_from(records, source).len() implies is_destination(
            records,
            (#[trigger] edges_from(records, source)[i]).target(),
        ) by {
            let edge = edges_from(records, source)[i];
            if i < edges_from(rest, source).len() {
                assert(edge == edges_from(rest, source)[i]);
                let j = choose|j: int|
                    0 <= j < rest.len() && (#[trigger] rest[j]).next_state == edge.target();
                assert(records[j].next_state == edge.target());
            } else {
                assert(edge == records.last().edge());
                assert(records[records.len() - 1].next_state == edge.target());
            }
        }
    }
}

/// Groups transition records by their source state, keeping the order of
/// the records within each group, and gives every state that a record leads
/// to an entry of its own.
pub fn convert_json_transitions(jtrans: Vec<JsonTransition>) -> (table: TransitionTable)
    ensures
        lists_of(table@) == grouped(jtrans@),
{
    let mut table: TransitionTable = HashMap::new();
    let mut i: usize = 0;
    while i < jtrans.len()
        invariant
            i <= jtrans.len(),
            forall|s: StateId|
                #![trigger table@.contains_key(s)]
                table@.contains_key(s) <==> is_source(jtrans@.take(i as int), s),
            forall|s: StateId|
                #![trigger table@[s]]
                table@.contains_key(s) ==> table@[s]@ == edges_from(jtrans@.take(i as int), s),
        decreases jtrans.len() - i,
    {
        let record = jtrans[i];
        let ghost before = table@;
        let ghost done = jtrans@.take(i as int);
        let mut list = match table.remove(&record.curr_state) {
            Some(list) => list,
            None => Vec::new(),
        };
        proof {
            if !before.contains_key(record.curr_state) {
                lemma_edges_from(done, record.curr_state);
            }
            assert(list@ == edges_from(done, record.curr_state));
        }
        list.push(record.to_transition());
        table.insert(record.curr_state, list);
        i += 1;
        proof {
            let now = jtrans@.take(i as int);
            assert(now.drop_last() =~= done);
            assert(now.last() == record);
            assert forall|s: StateId|
                #![trigger table@.contains_key(s)]
                table@.contains_key(s) <==> is_source(now, s) by {
                if is_source(done, s) {
                    let j = choose|j: int|
                        0 <= j < done.len() && (#[trigger] done[j]).curr_state == s;
                    assert(now[j].curr_state == s);
                }
                if s == record.curr_state {
                    assert(now[now.len() - 1].curr_state == s);
                }
                if is_source(now, s) && s != record.curr_state {
                    let j = choose|j: int| 0 <= j < now.len() && (#[trigger] now[j]).curr_state == s;
                    assert(done[j].curr_state == s);
                }
            }
            assert forall|s: StateId|
                #![trigger table@[s]]
                table@.contains_key(s) implies table@[s]@ == edges_from(now, s) by {
                if s != record.curr_state {
                    assert(before.contains_key(s));
                    assert(table@[s] == before[s]);
                }
            }
        }
    }
    proof {
        assert(jtrans@.take(i as int) =~= jtrans@);
    }
    let ghost sources = table@;
    let mut k: usize = 0;
    while k < jtrans.len()
        invariant
            k <= jtrans.len(),
            forall|s: StateId|
                #![trigger sources.contains_key(s)]
                sources.contains_key(s) <==> is_source(jtrans@, s),
            forall|s: StateId|
                #![trigger table@.contains_key(s)]
                table@.contains_key(s) <==> is_source(jtrans@, s) || is_destination(
                    jtrans@.take(k as int),
                    s,
                ),
            forall|s: StateId|
                #![trigger table@[s]]
                table@.contains_key(s) ==> table@[s]@ == edges_from(jtrans@, s),
        decreases jtrans.len() - k,
    {
        let next = jtrans[k].next_state;
        let ghost before = table@;
        let ghost done = jtrans@.take(k as int);
        if !table.contains_key(&next) {
            proof {
                lemma_edges_from(jtrans@, next);
            }
            table.insert(next, Vec::new());
        }
        k += 1;
        proof {
            let now = jtrans@.take(k as int);
            assert forall|s: StateId|
                #![trigger table@.contains_key(s)]
                table@.contains_key(s) <==> is_source(jtrans@, s) || is_destination(now, s) by {
                assert(table@.contains_key(s) <==> before.contains_key(s) || s == next);
                if is_destination(done, s) {
                    let j = choose|j: int|
                        0 <= j < done.len() && (#[trigger] done[j]).next_state == s;
                    assert(now[j].next_state == s);
                }
                if s == next {
                    assert(now[now.len() - 1].next_state == s);
                }
                if is_destination(now, s) && s != next {
                    let j = choose|j: int| 0 <= j < now.len() && (#[trigger] now[j]).next_state == s;
                    assert(done[j].next_state == s);
                }
            }
        }
    }
    proof {
        assert(jtrans@.take(k as int) =~= jtrans@);
        assert(lists_of(table@) =~= grouped(jtrans@));
    }
    table
}

/// Whether a description can be turned into an automaton: none of its
/// records may have the reserved dead state as its source.
pub open spec fn ingestible(records: Seq<JsonTransition>) -> bool {
    !is_source(records, DEAD_STATE)
}

/// Builds the automaton that `json` describes. The description is refused
/// when one of its records has the dead state as its source.
pub fn dfa_from_json(json: JsonDfa) -> (built: Result<Dfa, MonitorError>)
    ensures
        match built {
            Ok(dfa) => {
                &&& ingestible(json.transition_table@)
                &&& dfa@ == described(
                    json.start_state,
                    json.match_states@,
                    json.transition_table@,
                )
                &&& dfa.wf()
            },
            Err(e) => {
                &&& !ingestible(json.transition_table@)
                &&& e == MonitorError::CorruptAutomaton
            },
        },
{
    let matches = state_set(&json.match_states);
    proof {
        lemma_edges_from(json.transition_table@, DEAD_STATE);
    }
    let table = convert_json_transitions(json.transition_table);
    Dfa::new(json.start_state, matches, table)
}

} // verus!
