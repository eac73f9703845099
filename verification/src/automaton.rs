//! The mathematical model of a byte-level deterministic finite automaton:
//! guarded transitions, the step function, runs over byte sequences and the
//! anchored classification of a line.

use vstd::prelude::*;

verus! {

/// Identifier of a state. Identifiers are chosen by whoever built the
/// automaton and are never renumbered.
pub type StateId = u32;

/// One guarded edge out of a state.
#[derive(Clone, Copy, Debug, PartialEq, Eq, Hash, Structural)]
pub enum TransitionDesc {
    /// On an input byte equal to the given byte, go to the given state.
    Match(u8, StateId),
    /// On an input byte in the closed interval between the two given bytes,
    /// go to the given state. An interval whose lower end lies above its
    /// upper end holds no byte.
    Range(u8, u8, StateId),
}

/// The ordered list of edges out of one state.
pub type TransitionList = Seq<TransitionDesc>;

impl TransitionDesc {
    /// Whether this edge is taken on `input`.
    pub open spec fn admits(self, input: u8) -> bool {
        match self {
            TransitionDesc::Match(byte, _) => input == byte,
            TransitionDesc::Range(lo, hi, _) => lo <= input && input <= hi,
        }
    }

    /// The state this edge leads to.
    pub open spec fn target(self) -> StateId {
        match self {
            TransitionDesc::Match(_, next) => next,
            TransitionDesc::Range(_, _, next) => next,
        }
    }

    /// Executable form of [`TransitionDesc::admits`].
    pub fn guards(&self, input: u8) -> (taken: bool)
        ensures
            taken == self.admits(input),
    {
        match self {
            TransitionDesc::Match(byte, _) => input == *byte,
            TransitionDesc::Range(lo, hi, _) => *lo <= input && input <= *hi,
        }
    }

    /// Executable form of [`TransitionDesc::target`].
    pub fn next(&self) -> (next: StateId)
        ensures
            next == self.target(),
    {
        match self {
            TransitionDesc::Match(_, next) => *next,
            TransitionDesc::Range(_, _, next) => *next,
        }
    }
}

/// The state reached from a state with edge list `list` on `input`: the
/// target of the first edge in list order that admits `input`, and
/// `fallback` when no edge does.
pub open spec fn scan(list: TransitionList, input: u8, fallback: StateId) -> StateId
    decreases list.len(),
{
    if list.len() == 0 {
        fallback
    } else if list[0].admits(input) {
        list[0].target()
    } else {
        scan(list.drop_first(), input, fallback)
    }
}

/// Whether `index` is the position of the first edge of `list` that admits
/// `input`.
pub open spec fn first_admitting(list: TransitionList, input: u8, index: int) -> bool {
    &&& 0 <= index < list.len()
    &&& list[index].admits(input)
    &&& forall|j: int| 0 <= j < index ==> !(#[trigger] list[j]).admits(input)
}

/// Whether no edge of `list` admits `input`.
pub open spec fn none_admitting(list: TransitionList, input: u8) -> bool {
    forall|j: int| 0 <= j < list.len() ==> !(#[trigger] list[j]).admits(input)
}

/// How a line relates to the language of an automaton.
#[derive(Clone, Copy, Debug, PartialEq, Eq, Structural)]
pub enum Classification {
    /// The whole line is accepted.
    Full,
    /// The whole line is not accepted, but a proper prefix of it is.
    Partial,
    /// Neither the line nor any proper prefix of it is accepted.
    NoMatch,
}

/// An automaton as a mathematical value.
pub struct DfaModel {
    pub start: StateId,
    pub matches: Set<StateId>,
    pub table: Map<StateId, TransitionList>,
    pub dead: StateId,
}

impl DfaModel {
    /// `s` is the dead state.
    pub open spec fn is_dead(self, s: StateId) -> bool {
        s == self.dead
    }

    /// `s` is a match state.
    pub open spec fn is_match(self, s: StateId) -> bool {
        self.matches.contains(s)
    }

    /// `s` is the start state.
    pub open spec fn is_start(self, s: StateId) -> bool {
        s == self.start
    }

    /// The step function. A state without an entry in the table has no
    /// edges, so every input leads from it to the dead state.
    pub open spec fn step(self, current: StateId, input: u8) -> StateId {
        if self.table.contains_key(current) {
            scan(self.table[current], input, self.dead)
        } else {
            self.dead
        }
    }

    /// The state reached from `from` after reading all of `input`.
    pub open spec fn run(self, from: StateId, input: Seq<u8>) -> StateId
        decreases input.len(),
    {
        if input.len() == 0 {
            from
        } else {
            self.step(self.run(from, input.drop_last()), input.last())
        }
    }

    /// Membership in the language of the automaton: reading `input` from the
    /// start state ends in a match state.
    pub open spec fn accepts(self, input: Seq<u8>) -> bool {
        self.is_match(self.run(self.start, input))
    }

    /// Whether some proper prefix of `line` is accepted.
    pub open spec fn accepts_proper_prefix(self, line: Seq<u8>) -> bool {
        exists|n: int| 0 <= n < line.len() && #[trigger] self.accepts(line.take(n))
    }

    /// The anchored classification of a line.
    pub open spec fn classify(self, line: Seq<u8>) -> Classification {
        if self.accepts(line) {
            Classification::Full
        } else if self.accepts_proper_prefix(line) {
            Classification::Partial
        } else {
            Classification::NoMatch
        }
    }

    /// Every edge of every list in the table leads to a state that has an
    /// entry of its own.
    pub open spec fn targets_present(self) -> bool {
        forall|s: StateId, i: int|
            #![trigger self.table[s][i]]
            self.table.contains_key(s) && 0 <= i < self.table[s].len() ==> self.table.contains_key(
                self.table[s][i].target(),
            )
    }

    /// The table has an entry for the start state, for the dead state, for
    /// every match state and for the target of every edge.
    pub open spec fn closed(self) -> bool {
        &&& self.table.contains_key(self.start)
        &&& self.table.contains_key(self.dead)
        &&& forall|s: StateId| #[trigger] self.matches.contains(s) ==> self.table.contains_key(s)
        &&& self.targets_present()
    }

    /// No input leads out of the dead state.
    pub open spec fn dead_absorbs(self) -> bool {
        forall|input: u8| #[trigger] self.step(self.dead, input) == self.dead
    }

    /// The invariant of a constructed automaton.
    pub open spec fn wf(self) -> bool {
        &&& self.closed()
        &&& self.dead_absorbs()
    }
}

/// The identifier reserved for the dead state of every automaton that is
/// assembled from a caller's table.
pub const DEAD_STATE: StateId = 0;

/// The edge list installed at the dead state: one self-loop over every byte.
pub open spec fn dead_loop() -> TransitionList {
    seq![TransitionDesc::Range(0u8, 255u8, DEAD_STATE)]
}

/// Whether some edge of `table` leads to `s`.
pub open spec fn is_target(table: Map<StateId, TransitionList>, s: StateId) -> bool {
    exists|k: StateId, i: int|
        table.contains_key(k) && 0 <= i < table[k].len() && (#[trigger] table[k][i]).target() == s
}

/// Whether `s` is the start state, a match state or the target of an edge.
pub open spec fn referenced(
    start: StateId,
    matches: Set<StateId>,
    table: Map<StateId, TransitionList>,
    s: StateId,
) -> bool {
    s == start || matches.contains(s) || is_target(table, s)
}

/// Whether `table` gives the reserved dead state edges of its own.
pub open spec fn defines_dead_edges(table: Map<StateId, TransitionList>) -> bool {
    table.contains_key(DEAD_STATE) && table[DEAD_STATE].len() > 0
}

/// The automaton assembled from a start state, match states and a caller's
/// table: the dead state gets its self-loop, every state of the table keeps
/// its list, and every other referenced state gets an empty list.
pub open spec fn assemble(
    start: StateId,
    matches: Set<StateId>,
    table: Map<StateId, TransitionList>,
) -> DfaModel {
    DfaModel {
        start,
        matches,
        table: Map::new(
            |s: StateId|
                s == DEAD_STATE || table.contains_key(s) || referenced(start, matches, table, s),
            |s: StateId|
                if s == DEAD_STATE {
                    dead_loop()
                } else if table.contains_key(s) {
                    table[s]
                } else {
                    Seq::empty()
                },
        ),
        dead: DEAD_STATE,
    }
}

/// Assembling establishes the invariant, whatever the caller's table holds.
pub proof fn lemma_assemble_wf(
    start: StateId,
    matches: Set<StateId>,
    table: Map<StateId, TransitionList>,
)
    ensures
        assemble(start, matches, table).wf(),
        assemble(start, matches, table).dead == DEAD_STATE,
{
    let a = assemble(start, matches, table);
    assert(a.targets_present()) by {
        assert forall|s: StateId, i: int|
            #![trigger a.table[s][i]]
            a.table.contains_key(s) && 0 <= i < a.table[s].len() implies a.table.contains_key(
            a.table[s][i].target(),
        ) by {
            if s != DEAD_STATE {
                assert(table.contains_key(s));
                assert(table[s][i].target() == a.table[s][i].target());
                assert(is_target(table, a.table[s][i].target()));
            }
        }
    }
    assert(a.dead_absorbs()) by {
        assert forall|input: u8| #[trigger] a.step(a.dead, input) == a.dead by {
            assert(a.table[DEAD_STATE] == dead_loop());
            assert(dead_loop()[0].admits(input));
        }
    }
}

/// The table that a list of entries stands for. Where two entries have the
/// same source, the later one counts.
pub open spec fn table_of(entries: Seq<(StateId, TransitionList)>) -> Map<StateId, TransitionList>
    decreases entries.len(),
{
    if entries.len() == 0 {
        Map::empty()
    } else {
        table_of(entries.drop_last()).insert(entries.last().0, entries.last().1)
    }
}

/// Whether no two entries have the same source.
pub open spec fn distinct_sources(entries: Seq<(StateId, TransitionList)>) -> bool {
    forall|i: int, j: int|
        0 <= i < j < entries.len() ==> (#[trigger] entries[i]).0 != (#[trigger] entries[j]).0
}

/// Whether some entry has `s` as its source.
pub open spec fn has_source(entries: Seq<(StateId, TransitionList)>, s: StateId) -> bool {
    exists|j: int| 0 <= j < entries.len() && (#[trigger] entries[j]).0 == s
}

/// The table of a list of entries holds exactly the sources of the entries,
/// and, where the sources are distinct, maps each to the list of its entry.
pub proof fn lemma_table_of(entries: Seq<(StateId, TransitionList)>)
    ensures
        forall|s: StateId| #[trigger] table_of(entries).contains_key(s) <==> has_source(entries, s),
        distinct_sources(entries) ==> forall|j: int|
            0 <= j < entries.len() ==> table_of(entries)[(#[trigger] entries[j]).0] == entries[j].1,
    decreases entries.len(),
{
    if entries.len() > 0 {
        let rest = entries.drop_last();
        let last = entries.last();
        lemma_table_of(rest);
        assert forall|s: StateId| #[trigger]
            table_of(entries).contains_key(s) <==> has_source(entries, s) by {
            assert(table_of(rest).contains_key(s) <==> has_source(rest, s));
            if has_source(rest, s) {
                let j = choose|j: int| 0 <= j < rest.len() && (#[trigger] rest[j]).0 == s;
                assert(entries[j].0 == s);
            }
            if s == last.0 {
                assert(entries[entries.len() - 1].0 == s);
            }
            if has_source(entries, s) && s != last.0 {
                let j = choose|j: int| 0 <= j < entries.len() && (#[trigger] entries[j]).0 == s;
                assert(rest[j].0 == s);
            }
        }
        if distinct_sources(entries) {
            assert(distinct_sources(rest)) by {
                assert forall|i: int, j: int| 0 <= i < j < rest.len() implies (#[trigger] rest[i]).0
                    != (#[trigger] rest[j]).0 by {
                    assert(entries[i].0 != entries[j].0);
                }
            }
            assert forall|j: int| 0 <= j < entries.len() implies table_of(entries)[(
            #[trigger] entries[j]).0] == entries[j].1 by {
                if j < rest.len() {
                    assert(entries[j].0 != entries[entries.len() - 1].0);
                    assert(rest[j] == entries[j]);
                }
            }
        }
    }
}

} // verus!
