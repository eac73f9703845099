//! The binary form of an automaton: a flat, order-preserving record of its
//! four parts, encoded to bytes and decoded again.

use crate::automaton::distinct_sources;
use crate::automaton::has_source;
use crate::automaton::lemma_table_of;
use crate::automaton::table_of;
use crate::automaton::DfaModel;
use crate::automaton::StateId;
use crate::automaton::TransitionDesc;
use crate::automaton::TransitionList;
use crate::dfa::copy_edges;
use crate::dfa::entry_lists;
use crate::dfa::lists_of;
use crate::dfa::state_set;
use crate::dfa::Dfa;
use crate::dfa::TransitionTable;
use crate::error::MonitorError;
use std::collections::HashMap;
use vstd::prelude::*;

verus! {

broadcast use vstd::std_specs::hash::group_hash_axioms;

/// An edge as it is encoded: whether it is a range edge, the lower and the
/// upper byte, and the target. A single-byte edge repeats its byte.
pub type WireEdge = (bool, u8, u8, StateId);

/// A table entry as it is encoded: a source state and its edges in order.
pub type WireEntry = (StateId, Vec<WireEdge>);

/// An automaton as it is encoded: start state, dead state, match states and
/// table entries.
pub type WireDfa = (StateId, StateId, Vec<StateId>, Vec<WireEntry>);

/// The mathematical value of a [`WireDfa`].
pub type WireModel = (StateId, StateId, Seq<StateId>, Seq<(StateId, Seq<WireEdge>)>);

/// The bytes that `bitcode::encode` produces for a value.
pub uninterp spec fn bitcode_encoding(wire: WireModel) -> Seq<u8>;

/// The value that `bitcode::decode` reads from bytes, if it accepts them.
pub uninterp spec fn bitcode_decoding(bytes: Seq<u8>) -> Option<WireModel>;

/// Declares `bitcode::Error`, the decoder's error, as an opaque type.
#[verifier::external_type_specification]
#[verifier::external_body]
pub struct ExBitcodeError(bitcode::Error);

/// Calls `bitcode::encode`. Trusted: the bytes are the crate's encoding of
/// the value, and the crate's decoder reads the same value back from them.
#[verifier::external_body]
fn bitcode_encode(wire: &WireDfa) -> (bytes: Vec<u8>)
    ensures
        bytes@ == bitcode_encoding(wire.deep_view()),
        bitcode_decoding(bytes@) == Some(wire.deep_view()),
{
    bitcode::encode(wire)
}

/// Calls `bitcode::decode`. Trusted: the outcome depends on the bytes alone;
/// it is the decoded value where the crate accepts the bytes and an error
/// where it does not.
#[verifier::external_body]
fn bitcode_decode(bytes: &[u8]) -> (wire: Result<WireDfa, bitcode::Error>)
    ensures
        match wire {
            Ok(w) => bitcode_decoding(bytes@) == Some(w.deep_view()),
            Err(_) => bitcode_decoding(bytes@) is None,
        },
{
    bitcode::decode(bytes)
}

/// The encoded form of an edge.
pub open spec fn wire_edge(edge: TransitionDesc) -> WireEdge {
    match edge {
        TransitionDesc::Match(byte, next) => (false, byte, byte, next),
        TransitionDesc::Range(lo, hi, next) => (true, lo, hi, next),
    }
}

/// The edge that an encoded edge stands for. An encoded single-byte edge
/// whose two bytes differ stands for nothing.
pub open spec fn edge_of_wire(edge: WireEdge) -> Option<TransitionDesc> {
    if edge.0 {
        Some(TransitionDesc::Range(edge.1, edge.2, edge.3))
    } else if edge.1 == edge.2 {
        Some(TransitionDesc::Match(edge.1, edge.3))
    } else {
        None
    }
}

/// The encoded form of an edge list.
pub open spec fn wire_edges(list: TransitionList) -> Seq<WireEdge> {
    Seq::new(list.len(), |i: int| wire_edge(list[i]))
}

/// Whether every encoded edge of `list` stands for an edge.
pub open spec fn edges_readable(list: Seq<WireEdge>) -> bool {
    forall|i: int| 0 <= i < list.len() ==> edge_of_wire(#[trigger] list[i]) is Some
}

/// The edges that a readable list of encoded edges stands for.
pub open spec fn edges_of_wire(list: Seq<WireEdge>) -> TransitionList {
    Seq::new(list.len(), |i: int| edge_of_wire(list[i])->0)
}

/// The parts of an automaton as a mathematical value, in the order in which
/// they are encoded.
pub struct SerModel {
    pub start: StateId,
    pub matches: Seq<StateId>,
    pub entries: Seq<(StateId, TransitionList)>,
    pub dead: StateId,
}

impl SerModel {
    /// The automaton made of these parts.
    pub open spec fn model(self) -> DfaModel {
        DfaModel {
            start: self.start,
            matches: self.matches.to_set(),
            table: table_of(self.entries),
            dead: self.dead,
        }
    }

    /// The automaton that these parts stand for: none where two entries
    /// share a source or where the parts break the invariant.
    pub open spec fn meaning(self) -> Option<DfaModel> {
        if distinct_sources(self.entries) && self.model().wf() {
            Some(self.model())
        } else {
            None
        }
    }

    /// The encoded form of these parts.
    pub open spec fn wire(self) -> WireModel {
        (
            self.start,
            self.dead,
            self.matches,
            Seq::new(
                self.entries.len(),
                |j: int| (self.entries[j].0, wire_edges(self.entries[j].1)),
            ),
        )
    }
}

/// Whether every encoded edge of every entry of `wire` stands for an edge.
pub open spec fn wire_readable(wire: WireModel) -> bool {
    forall|j: int| 0 <= j < wire.3.len() ==> edges_readable((#[trigger] wire.3[j]).1)
}

/// The parts that an encoded value stands for, if it is readable.
pub open spec fn parts_of_wire(wire: WireModel) -> Option<SerModel> {
    if wire_readable(wire) {
        Some(
            SerModel {
                start: wire.0,
                matches: wire.2,
                entries: Seq::new(wire.3.len(), |j: int| (wire.3[j].0, edges_of_wire(wire.3[j].1))),
                dead: wire.1,
            },
        )
    } else {
        None
    }
}

/// The automaton that a byte string stands for, if any.
pub open spec fn decoded(bytes: Seq<u8>) -> Option<DfaModel> {
    match bitcode_decoding(bytes) {
        Some(wire) => match parts_of_wire(wire) {
            Some(parts) => parts.meaning(),
            None => None,
        },
        None => None,
    }
}

/// Reading the encoded form of parts gives the parts back.
pub proof fn lemma_wire_round_trip(parts: SerModel)
    ensures
        parts_of_wire(parts.wire()) == Some(parts),
{
    let wire = parts.wire();
    assert forall|j: int| 0 <= j < wire.3.len() implies edges_readable((#[trigger] wire.3[j]).1) by {
        let list = parts.entries[j].1;
        assert forall|i: int| 0 <= i < wire.3[j].1.len() implies edge_of_wire(
            #[trigger] wire.3[j].1[i],
        ) is Some by {
            assert(wire.3[j].1[i] == wire_edge(list[i]));
        }
    }
    let back = parts_of_wire(wire)->0;
    assert(back.entries =~= parts.entries) by {
        assert forall|j: int| 0 <= j < parts.entries.len() implies back.entries[j]
            == parts.entries[j] by {
            let list = parts.entries[j].1;
            assert(edges_of_wire(wire_edges(list)) =~= list) by {
                assert forall|i: int| 0 <= i < list.len() implies edges_of_wire(wire_edges(list))[i]
                    == list[i] by {
                    assert(wire_edges(list)[i] == wire_edge(list[i]));
                }
            }
        }
    }
}

/// The parts of an automaton, held in the order in which they are encoded.
#[derive(Debug)]
pub struct SerDfa {
    pub start_state: StateId,
    pub match_states: Vec<StateId>,
    pub transition_table: Vec<(StateId, Vec<TransitionDesc>)>,
    pub dead_state: StateId,
}

impl View for SerDfa {
    type V = SerModel;

    open spec fn view(&self) -> SerModel {
        SerModel {
            start: self.start_state,
            matches: self.match_states@,
            entries: entry_lists(self.transition_table@),
            dead: self.dead_state,
        }
    }
}

/// The encoded form of one edge.
pub fn edge_to_wire(edge: &TransitionDesc) -> (wire: WireEdge)
    ensures
        wire == wire_edge(*edge),
{
    match edge {
        TransitionDesc::Match(byte, next) => (false, *byte, *byte, *next),
        TransitionDesc::Range(lo, hi, next) => (true, *lo, *hi, *next),
    }
}

/// The edge that one encoded edge stands for.
pub fn edge_from_wire(wire: &WireEdge) -> (edge: Option<TransitionDesc>)
    ensures
        edge == edge_of_wire(*wire),
{
    if wire.0 {
        Some(TransitionDesc::Range(wire.1, wire.2, wire.3))
    } else if wire.1 == wire.2 {
        Some(TransitionDesc::Match(wire.1, wire.3))
    } else {
        None
    }
}

/// The encoded form of an edge list.
pub fn edges_to_wire(list: &Vec<TransitionDesc>) -> (wire: Vec<WireEdge>)
    ensures
        wire.deep_view() == wire_edges(list@),
{
    let mut wire: Vec<WireEdge> = Vec::new();
    let mut i: usize = 0;
    while i < list.len()
        invariant
            i <= list.len(),
            wire@.len() == i,
            forall|n: int| 0 <= n < i ==> #[trigger] wire@[n] == wire_edge(list@[n]),
        decreases list.len() - i,
    {
        wire.push(edge_to_wire(&list[i]));
        i += 1;
    }
    proof {
        assert(wire.deep_view() =~= wire_edges(list@));
    }
    wire
}

/// The edges that a list of encoded edges stands for, if all of them can
/// be read.
pub fn edges_from_wire(wire: &Vec<WireEdge>) -> (list: Option<Vec<TransitionDesc>>)
    ensures
        match list {
            Some(edges) => edges_readable(wire.deep_view()) && edges@ == edges_of_wire(
                wire.deep_view(),
            ),
            None => !edges_readable(wire.deep_view()),
        },
{
    let ghost given = wire.deep_view();
    let mut edges: Vec<TransitionDesc> = Vec::new();
    let mut i: usize = 0;
    while i < wire.len()
        invariant
            i <= wire.len(),
            given == wire.deep_view(),
            edges@.len() == i,
            forall|n: int| 0 <= n < i ==> edge_of_wire(#[trigger] given[n]) == Some(edges@[n]),
        decreases wire.len() - i,
    {
        proof {
            assert(given[i as int] == wire@[i as int]);
        }
        match edge_from_wire(&wire[i]) {
            Some(edge) => {
                edges.push(edge);
            },
            None => {
                return None;
            },
        }
        i += 1;
    }
    proof {
        assert(edges@ =~= edges_of_wire(given));
    }
    Some(edges)
}

impl SerDfa {
    /// Takes an automaton apart. The order of the match states and of the
    /// table entries is not fixed.
    pub fn from(dfa: &Dfa) -> (parts: SerDfa)
        ensures
            distinct_sources(parts@.entries),
            parts@.model() == dfa@,
    {
        let parts = SerDfa {
            start_state: dfa.start_state(),
            match_states: dfa.match_states(),
            transition_table: dfa.transitions(),
            dead_state: dfa.dead_state(),
        };
        proof {
            assert(parts@.model().matches == dfa@.matches);
            assert(parts@.model().table == dfa@.table);
        }
        parts
    }

    /// Puts an automaton together. Parts that name a source twice or that
    /// break the invariant are refused.
    pub fn to_dfa(self) -> (built: Result<Dfa, MonitorError>)
        ensures
            match built {
                Ok(dfa) => self@.meaning() == Some(dfa@) && dfa.wf(),
                Err(e) => self@.meaning() is None && e == MonitorError::CorruptAutomaton,
            },
    {
        let ghost entries = entry_lists(self.transition_table@);
        let mut table: TransitionTable = HashMap::new();
        let mut i: usize = 0;
        while i < self.transition_table.len()
            invariant
                i <= self.transition_table.len(),
                entries == entry_lists(self.transition_table@),
                distinct_sources(entries.take(i as int)),
                lists_of(table@) == table_of(entries.take(i as int)),
            decreases self.transition_table.len() - i,
        {
            let ghost done = entries.take(i as int);
            let source = self.transition_table[i].0;
            proof {
                lemma_table_of(done);
                assert(entries[i as int].0 == source);
            }
            if table.contains_key(&source) {
                proof {
                    assert(lists_of(table@).contains_key(source));
                    assert(table_of(done).contains_key(source));
                    assert(has_source(done, source));
                    let j = choose|j: int| 0 <= j < done.len() && (#[trigger] done[j]).0 == source;
                    assert(entries[j] == done[j]);
                    assert(entries[j].0 == entries[i as int].0);
                }
                return Err(MonitorError::CorruptAutomaton);
            }
            proof {
                assert(!lists_of(table@).contains_key(source));
                assert(!table_of(done).contains_key(source));
                assert(!has_source(done, source));
            }
            table.insert(source, copy_edges(&self.transition_table[i].1));
            i += 1;
            proof {
                let now = entries.take(i as int);
                assert(now.drop_last() =~= done);
                assert(now.last() == entries[i - 1]);
                assert(lists_of(table@) =~= table_of(now));
                assert forall|a: int, b: int| 0 <= a < b < now.len() implies (#[trigger] now[a]).0
                    != (#[trigger] now[b]).0 by {
                    if b < now.len() - 1 {
                        assert(done[a].0 != done[b].0);
                    } else {
                        assert(now[b].0 == source);
                        assert(done[a] == now[a]);
                        if now[a].0 == source {
                            assert(has_source(done, source));
                        }
                    }
                }
            }
        }
        proof {
            assert(entries.take(i as int) =~= entries);
        }
        let matches = state_set(&self.match_states);
        Dfa::from_parts(self.start_state, self.dead_state, matches, table)
    }

    /// The form of these parts that is handed to the encoder.
    pub fn to_wire(&self) -> (wire: WireDfa)
        ensures
            wire.deep_view() == self@.wire(),
    {
        let mut matches: Vec<StateId> = Vec::new();
        let mut m: usize = 0;
        while m < self.match_states.len()
            invariant
                m <= self.match_states.len(),
                matches@ == self.match_states@.take(m as int),
            decreases self.match_states.len() - m,
        {
            let ghost done = self.match_states@.take(m as int);
            matches.push(self.match_states[m]);
            m += 1;
            proof {
                assert(self.match_states@.take(m as int) =~= done.push(self.match_states@[m - 1]));
            }
        }
        let mut entries: Vec<WireEntry> = Vec::new();
        let mut i: usize = 0;
        while i < self.transition_table.len()
            invariant
                i <= self.transition_table.len(),
                entries@.len() == i,
                forall|n: int|
                    0 <= n < i ==> (#[trigger] entries@[n]).0 == self.transition_table@[n].0
                        && entries@[n].1.deep_view() == wire_edges(self.transition_table@[n].1@),
            decreases self.transition_table.len() - i,
        {
            let source = self.transition_table[i].0;
            let edges = edges_to_wire(&self.transition_table[i].1);
            entries.push((source, edges));
            i += 1;
        }
        let wire = (self.start_state, self.dead_state, matches, entries);
        proof {
            assert(self.match_states@.take(m as int) =~= self.match_states@);
            assert(wire.2.deep_view() =~= self@.matches);
            assert(wire.3.deep_view() =~= self@.wire().3);
        }
        wire
    }

    /// The parts that a decoded value stands for. A value that holds an
    /// unreadable edge is refused.
    pub fn from_wire(wire: WireDfa) -> (parts: Result<SerDfa, MonitorError>)
        ensures
            match parts {
                Ok(p) => parts_of_wire(wire.deep_view()) == Some(p@),
                Err(e) => parts_of_wire(wire.deep_view()) is None && e
                    == MonitorError::CorruptAutomaton,
            },
    {
        let ghost given = wire.deep_view();
        let (start_state, dead_state, match_states, wire_entries) = wire;
        let mut transition_table: Vec<(StateId, Vec<TransitionDesc>)> = Vec::new();
        let mut i: usize = 0;
        while i < wire_entries.len()
            invariant
                i <= wire_entries.len(),
                given == wire.deep_view(),
                given.3 == wire_entries.deep_view(),
                transition_table@.len() == i,
                forall|n: int| 0 <= n < i ==> edges_readable((#[trigger] given.3[n]).1),
                forall|n: int|
                    0 <= n < i ==> (#[trigger] transition_table@[n]).0 == given.3[n].0
                        && transition_table@[n].1@ == edges_of_wire(given.3[n].1),
            decreases wire_entries.len() - i,
        {
            proof {
                assert(given.3[i as int] == wire_entries@[i as int].deep_view());
            }
            match edges_from_wire(&wire_entries[i].1) {
                Some(edges) => {
                    transition_table.push((wire_entries[i].0, edges));
                },
                None => {
                    proof {
                        assert(!edges_readable(given.3[i as int].1));
                        assert(!wire_readable(given));
                    }
                    return Err(MonitorError::CorruptAutomaton);
                },
            }
            i += 1;
        }
        let parts = SerDfa { start_state, match_states, transition_table, dead_state };
        proof {
            assert(given.2 =~= match_states@);
            assert(wire_readable(given));
            assert(parts@.entries =~= parts_of_wire(given)->0.entries);
        }
        Ok(parts)
    }

    /// Encodes these parts to bytes.
    pub fn serialize(&self) -> (bytes: Vec<u8>)
        ensures
            bytes@ == bitcode_encoding(self@.wire()),
            bitcode_decoding(bytes@) == Some(self@.wire()),
    {
        let wire = self.to_wire();
        bitcode_encode(&wire)
    }

    /// Decodes parts from bytes. Bytes that the decoder refuses, and values
    /// that hold an unreadable edge, are reported as a corrupt automaton.
    pub fn deserialize(bytes: &[u8]) -> (parts: Result<SerDfa, MonitorError>)
        ensures
            match parts {
                Ok(p) => bitcode_decoding(bytes@) matches Some(wire) && parts_of_wire(wire) == Some(
                    p@,
                ),
                Err(e) => {
                    &&& e == MonitorError::CorruptAutomaton
                    &&& match bitcode_decoding(bytes@) {
                        Some(wire) => parts_of_wire(wire) is None,
                        None => true,
                    }
                },
            },
    {
        match bitcode_decode(bytes) {
            Ok(wire) => SerDfa::from_wire(wire),
            Err(_) => Err(MonitorError::CorruptAutomaton),
        }
    }
}

} // verus!
