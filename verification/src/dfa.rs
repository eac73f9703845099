//! The executable automaton: a transition table keyed by source state, a
//! start state, a set of match states and the dead state.

use crate::automaton::assemble;
use crate::automaton::dead_loop;
use crate::automaton::defines_dead_edges;
use crate::automaton::distinct_sources;
use crate::automaton::has_source;
use crate::automaton::is_target;
use crate::automaton::lemma_assemble_wf;
use crate::automaton::lemma_table_of;
use crate::automaton::referenced;
use crate::automaton::scan;
use crate::automaton::table_of;
use crate::automaton::DEAD_STATE;
use crate::automaton::DfaModel;
use crate::automaton::StateId;
use crate::automaton::TransitionDesc;
use crate::automaton::TransitionList;
use crate::error::MonitorError;
use std::collections::HashMap;
use std::collections::HashSet;
use vstd::prelude::*;
use vstd::std_specs::hash::spec_hash_keys_iter;
use vstd::std_specs::hash::spec_hash_map_iter;
use vstd::std_specs::iter::IteratorSpec;

verus! {

broadcast use {
    vstd::std_specs::hash::group_hash_axioms,
    vstd::seq_lib::lemma_seq_contains_after_push,
};

/// The transition table as callers hand it over: for each source state the
/// ordered list of its edges.
pub type TransitionTable = HashMap<StateId, Vec<TransitionDesc>>;

/// The table of edge lists that a table of vectors stands for.
pub open spec fn lists_of(table: Map<StateId, Vec<TransitionDesc>>) -> Map<
    StateId,
    TransitionList,
> {
    Map::new(|s: StateId| table.contains_key(s), |s: StateId| table[s]@)
}

/// The entries that a vector of sources with their edge vectors stands for.
pub open spec fn entry_lists(entries: Seq<(StateId, Vec<TransitionDesc>)>) -> Seq<
    (StateId, TransitionList),
> {
    Seq::new(entries.len(), |i: int| (entries[i].0, entries[i].1@))
}

/// A deterministic finite automaton over bytes.
pub struct Dfa {
    start_state: StateId,
    match_states: HashSet<StateId>,
    transition_table: TransitionTable,
    dead_state: StateId,
}

impl View for Dfa {
    type V = DfaModel;

    closed spec fn view(&self) -> DfaModel {
        DfaModel {
            start: self.start_state,
            matches: self.match_states@,
            table: lists_of(self.transition_table@),
            dead: self.dead_state,
        }
    }
}

impl Dfa {
    /// The invariant of every automaton: it holds of every value of this
    /// type.
    #[verifier::type_invariant]
    pub open spec fn wf(&self) -> bool {
        self@.wf()
    }

    /// Builds an automaton whose dead state is [`DEAD_STATE`]. The table
    /// may leave out states that have no edges; it must not give the dead
    /// state edges of its own.
    pub fn new(
        start_state: StateId,
        match_states: HashSet<StateId>,
        transition_table: TransitionTable,
    ) -> (built: Result<Dfa, MonitorError>)
        ensures
            match built {
                Ok(dfa) => {
                    &&& !defines_dead_edges(lists_of(transition_table@))
                    &&& dfa@ == assemble(start_state, match_states@, lists_of(transition_table@))
                    &&& dfa.wf()
                },
                Err(e) => {
                    &&& defines_dead_edges(lists_of(transition_table@))
                    &&& e == MonitorError::CorruptAutomaton
                },
            },
    {
        let mut table = transition_table;
        let ghost given = lists_of(table@);
        match table.get(&DEAD_STATE) {
            Some(list) => {
                if list.len() > 0 {
                    return Err(MonitorError::CorruptAutomaton);
                }
            },
            None => {},
        }
        let wanted = referenced_states(start_state, &match_states, &table);
        let mut i: usize = 0;
        while i < wanted.len()
            invariant
                i <= wanted.len(),
                given == lists_of(transition_table@),
                forall|s: StateId|
                    #![trigger table@.contains_key(s)]
                    table@.contains_key(s) <==> given.contains_key(s) || wanted@.take(
                        i as int,
                    ).contains(s),
                forall|s: StateId|
                    #![trigger table@[s]]
                    table@.contains_key(s) ==> table@[s]@ == if given.contains_key(s) {
                        given[s]
                    } else {
                        Seq::<TransitionDesc>::empty()
                    },
            decreases wanted.len() - i,
        {
            let s = wanted[i];
            let ghost before = table@;
            let ghost done = wanted@.take(i as int);
            if !table.contains_key(&s) {
                table.insert(s, Vec::new());
            }
            i += 1;
            proof {
                assert(wanted@.take(i as int) =~= done.push(s));
                assert forall|x: StateId|
                    table@.contains_key(x) <==> given.contains_key(x) || wanted@.take(
                        i as int,
                    ).contains(x) by {
                    assert(table@.contains_key(x) <==> before.contains_key(x) || x == s);
                    assert(done.push(s).contains(x) <==> done.contains(x) || x == s);
                }
            }
        }
        proof {
            assert(wanted@.take(i as int) =~= wanted@);
        }
        let ghost filled = table@;
        let mut dead_edges: Vec<TransitionDesc> = Vec::new();
        dead_edges.push(TransitionDesc::Range(0u8, 255u8, DEAD_STATE));
        table.insert(DEAD_STATE, dead_edges);
        proof {
            let goal = assemble(start_state, match_states@, given);
            let lists = lists_of(table@);
            assert forall|s: StateId| lists.contains_key(s) <==> goal.table.contains_key(s) by {
                assert(table@.contains_key(s) <==> s == DEAD_STATE || filled.contains_key(s));
                assert(filled.contains_key(s) <==> given.contains_key(s) || wanted@.contains(s));
            }
            assert forall|s: StateId| lists.contains_key(s) implies lists[s] == goal.table[s] by {
                if s != DEAD_STATE {
                    assert(filled.contains_key(s));
                    assert(table@[s] == filled[s]);
                } else {
                    assert(table@[s]@ =~= dead_loop());
                }
            }
            assert(lists =~= goal.table);
            lemma_assemble_wf(start_state, match_states@, given);
        }
        Ok(Dfa { start_state, match_states, transition_table: table, dead_state: DEAD_STATE })
    }

    /// Builds an automaton from all four of its parts. Nothing is added to
    /// the table: the parts are refused unless they already satisfy the
    /// invariant.
    pub fn from_parts(
        start_state: StateId,
        dead_state: StateId,
        match_states: HashSet<StateId>,
        transition_table: TransitionTable,
    ) -> (built: Result<Dfa, MonitorError>)
        ensures
            ({
                let model = DfaModel {
                    start: start_state,
                    matches: match_states@,
                    table: lists_of(transition_table@),
                    dead: dead_state,
                };
                match built {
                    Ok(dfa) => model.wf() && dfa@ == model,
                    Err(e) => !model.wf() && e == MonitorError::CorruptAutomaton,
                }
            }),
    {
        let ghost lists = lists_of(transition_table@);
        let ghost model = DfaModel {
            start: start_state,
            matches: match_states@,
            table: lists,
            dead: dead_state,
        };
        if !transition_table.contains_key(&dead_state) {
            return Err(MonitorError::CorruptAutomaton);
        }
        let wanted = referenced_states(start_state, &match_states, &transition_table);
        let mut i: usize = 0;
        while i < wanted.len()
            invariant
                i <= wanted.len(),
                lists == lists_of(transition_table@),
                model == (DfaModel {
                    start: start_state,
                    matches: match_states@,
                    table: lists,
                    dead: dead_state,
                }),
                forall|s: StateId|
                    wanted@.contains(s) <==> referenced(start_state, match_states@, lists, s),
                forall|n: int| 0 <= n < i ==> lists.contains_key(#[trigger] wanted@[n]),
            decreases wanted.len() - i,
        {
            if !transition_table.contains_key(&wanted[i]) {
                proof {
                    let missing = wanted@[i as int];
                    assert(wanted@.contains(missing));
                    assert(referenced(start_state, match_states@, lists, missing));
                    assert(!model.table.contains_key(missing));
                    if missing == start_state {
                        assert(!model.table.contains_key(model.start));
                    } else if match_states@.contains(missing) {
                        assert(model.matches.contains(missing));
                    } else {
                        assert(is_target(lists, missing));
                    }
                    if is_target(lists, missing) {
                        let (k, e) = choose|k: StateId, e: int|
                            lists.contains_key(k) && 0 <= e < lists[k].len() && (
                            #[trigger] lists[k][e]).target() == missing;
                        assert(!model.table.contains_key(model.table[k][e].target()));
                    }
                    assert(!model.closed());
                }
                return Err(MonitorError::CorruptAutomaton);
            }
            i += 1;
        }
        proof {
            assert(model.closed()) by {
                assert forall|s: StateId|
                    referenced(start_state, match_states@, lists, s) implies lists.contains_key(
                    s,
                ) by {
                    assert(wanted@.contains(s));
                    let n = choose|n: int| 0 <= n < wanted@.len() && wanted@[n] == s;
                    assert(lists.contains_key(wanted@[n]));
                }
                assert forall|s: StateId, e: int|
                    #![trigger model.table[s][e]]
                    model.table.contains_key(s) && 0 <= e < model.table[s].len()
                        implies model.table.contains_key(model.table[s][e].target()) by {
                    assert(is_target(lists, lists[s][e].target()));
                }
            }
        }
        let dead_edges = match transition_table.get(&dead_state) {
            Some(list) => list,
            None => {
                return Err(MonitorError::CorruptAutomaton);
            },
        };
        let mut input: u8 = 0;
        loop
            invariant_except_break
                forall|b: u8| b < input ==> #[trigger] model.step(dead_state, b) == dead_state,
            invariant
                lists == lists_of(transition_table@),
                lists.contains_key(dead_state),
                lists[dead_state] == dead_edges@,
                model == (DfaModel {
                    start: start_state,
                    matches: match_states@,
                    table: lists,
                    dead: dead_state,
                }),
            ensures
                model.dead_absorbs(),
            decreases 255 - input,
        {
            if first_target(dead_edges, input, dead_state) != dead_state {
                proof {
                    assert(model.step(dead_state, input) != dead_state);
                }
                return Err(MonitorError::CorruptAutomaton);
            }
            if input == 255 {
                break ;
            }
            input += 1;
        }
        Ok(Dfa { start_state, match_states, transition_table, dead_state })
    }

    /// The match states, each once, in no particular order.
    pub fn match_states(&self) -> (states: Vec<StateId>)
        ensures
            states@.to_set() == self@.matches,
            states@.no_duplicates(),
    {
        let mut states: Vec<StateId> = Vec::new();
        for m in it: self.match_states.iter()
            invariant
                it.seq() == spec_hash_keys_iter(&self.match_states).remaining(),
                states@.len() == it.index(),
                forall|j: int| 0 <= j < states@.len() ==> states@[j] == *it.seq()[j],
        {
            states.push(*m);
        }
        proof {
            let r = spec_hash_keys_iter(&self.match_states).remaining();
            assert(states@ =~= r.unref());
        }
        states
    }

    /// The table as a list of entries, each source once, in no particular
    /// order.
    pub fn transitions(&self) -> (entries: Vec<(StateId, Vec<TransitionDesc>)>)
        ensures
            distinct_sources(entry_lists(entries@)),
            table_of(entry_lists(entries@)) == self@.table,
    {
        let mut entries: Vec<(StateId, Vec<TransitionDesc>)> = Vec::new();
        for entry in it: self.transition_table.iter()
            invariant
                it.seq() == spec_hash_map_iter(&self.transition_table).remaining(),
                entries@.len() == it.index(),
                forall|j: int|
                    0 <= j < entries@.len() ==> entries@[j].0 == *it.seq()[j].0 && entries@[j].1@ == (
                    *it.seq()[j].1)@,
        {
            let (source, list) = entry;
            entries.push((*source, copy_edges(list)));
        }
        proof {
            let r = spec_hash_map_iter(&self.transition_table).remaining();
            let table = self.transition_table@;
            let lists = entry_lists(entries@);
            assert forall|i: int, j: int| 0 <= i < j < lists.len() implies (#[trigger] lists[i]).0
                != (#[trigger] lists[j]).0 by {
                if lists[i].0 == lists[j].0 {
                    assert(table[*r[i].0] == *r[i].1);
                    assert(table[*r[j].0] == *r[j].1);
                    assert(r[i] == r[j]);
                }
            }
            lemma_table_of(lists);
            assert forall|s: StateId| table_of(lists).contains_key(s) <==> self@.table.contains_key(
                s,
            ) by {
                if has_source(lists, s) {
                    let j = choose|j: int| 0 <= j < lists.len() && (#[trigger] lists[j]).0 == s;
                    assert(table.contains_key(*r[j].0));
                }
                if table.contains_key(s) {
                    assert(r.contains((&s, &table[s])));
                    let j = choose|j: int| 0 <= j < r.len() && r[j] == (&s, &table[s]);
                    assert(lists[j].0 == s);
                }
            }
            assert forall|s: StateId| table_of(lists).contains_key(s) implies table_of(lists)[s]
                == self@.table[s] by {
                let j = choose|j: int| 0 <= j < lists.len() && (#[trigger] lists[j]).0 == s;
                assert(table_of(lists)[lists[j].0] == lists[j].1);
                assert(table[*r[j].0] == *r[j].1);
            }
            assert(table_of(lists) =~= self@.table);
        }
        entries
    }

    /// The step function: the target of the first edge out of `current`
    /// that admits `input`, the dead state when none does, and an error
    /// when `current` has no entry in the table.
    pub fn next_state(&self, current: StateId, input: u8) -> (next: Result<StateId, MonitorError>)
        ensures
            self@.table.contains_key(current) ==> next == Ok::<StateId, MonitorError>(
                self@.step(current, input),
            ),
            !self@.table.contains_key(current) ==> next == Err::<StateId, MonitorError>(
                MonitorError::CorruptAutomaton,
            ),
    {
        match self.transition_table.get(&current) {
            Some(list) => Ok(first_target(list, input, self.dead_state)),
            None => Err(MonitorError::CorruptAutomaton),
        }
    }

    /// The step function for a state that is known to have a table entry.
    pub fn next_state_unchecked(&self, current: StateId, input: u8) -> (next: StateId)
        requires
            self@.table.contains_key(current),
        ensures
            next == self@.step(current, input),
    {
        match self.transition_table.get(&current) {
            Some(list) => first_target(list, input, self.dead_state),
            None => self.dead_state,
        }
    }

    /// The automaton that accepts every line: its start state is a match
    /// state and is never left.
    pub fn accept_all() -> (dfa: Dfa)
        ensures
            dfa.wf(),
            forall|line: Seq<u8>| #[trigger] dfa@.accepts(line),
    {
        let everything: StateId = 1;
        let mut match_states: HashSet<StateId> = HashSet::new();
        match_states.insert(everything);
        let mut dead_edges: Vec<TransitionDesc> = Vec::new();
        dead_edges.push(TransitionDesc::Range(0u8, 255u8, DEAD_STATE));
        let mut edges: Vec<TransitionDesc> = Vec::new();
        edges.push(TransitionDesc::Range(0u8, 255u8, everything));
        let mut transition_table: TransitionTable = HashMap::new();
        transition_table.insert(DEAD_STATE, dead_edges);
        transition_table.insert(everything, edges);
        proof {
            let a = DfaModel {
                start: everything,
                matches: match_states@,
                table: lists_of(transition_table@),
                dead: DEAD_STATE,
            };
            assert(a.table[1u32] =~= seq![TransitionDesc::Range(0u8, 255u8, 1u32)]);
            assert(a.table[0u32] =~= seq![TransitionDesc::Range(0u8, 255u8, 0u32)]);
            assert forall|input: u8| #[trigger] a.step(1u32, input) == 1u32 by {
                assert(a.table[1u32][0].admits(input));
            }
            assert(a.dead_absorbs()) by {
                assert forall|input: u8| #[trigger] a.step(a.dead, input) == a.dead by {
                    assert(a.table[0u32][0].admits(input));
                }
            }
            assert(a.targets_present()) by {
                assert forall|s: StateId, i: int|
                    #![trigger a.table[s][i]]
                    a.table.contains_key(s) && 0 <= i < a.table[s].len()
                        implies a.table.contains_key(a.table[s][i].target()) by {
                    assert(s == 0 || s == 1);
                }
            }
            assert forall|line: Seq<u8>| #[trigger] a.accepts(line) by {
                lemma_stays(a, 1u32, line);
            }
        }
        Dfa { start_state: everything, match_states, transition_table, dead_state: DEAD_STATE }
    }

    /// Whether the empty line is accepted.
    pub fn has_empty(&self) -> (accepted: bool)
        ensures
            accepted == self@.accepts(Seq::<u8>::empty()),
    {
        proof {
            assert(self@.run(self@.start, Seq::<u8>::empty()) == self@.start);
        }
        self.match_states.contains(&self.start_state)
    }

    /// Whether `id` is the dead state, a match state or the start state.
    pub fn is_special_state(&self, id: StateId) -> (special: bool)
        ensures
            special == (self@.is_dead(id) || self@.is_match(id) || self@.is_start(id)),
    {
        self.is_dead_state(id) || self.is_match_state(id) || self.is_start_state(id)
    }

    /// This automaton has no quit states.
    pub fn is_quit_state(&self, _id: StateId) -> (quit: bool)
        ensures
            !quit,
    {
        false
    }

    /// This automaton has no accelerated states.
    pub fn is_accel_state(&self, _id: StateId) -> (accelerated: bool)
        ensures
            !accelerated,
    {
        false
    }

    /// An automaton stands for one pattern.
    pub fn pattern_len(&self) -> (patterns: usize)
        ensures
            patterns == 1,
    {
        1
    }

    /// The number of patterns that match in `id`: one in a match state,
    /// none elsewhere.
    pub fn match_len(&self, id: StateId) -> (patterns: usize)
        ensures
            patterns == if self@.is_match(id) {
                1usize
            } else {
                0usize
            },
    {
        if self.is_match_state(id) {
            1
        } else {
            0
        }
    }

    /// The index of the pattern that matches in the match state `id`.
    pub fn match_pattern(&self, id: StateId, _index: usize) -> (pattern: u32)
        requires
            self@.is_match(id),
        ensures
            pattern == 0,
    {
        0
    }

    /// The automaton reads raw bytes.
    pub fn is_utf8(&self) -> (utf8: bool)
        ensures
            !utf8,
    {
        false
    }

    /// Every search begins at the start of the line.
    pub fn is_always_start_anchored(&self) -> (anchored: bool)
        ensures
            anchored,
    {
        true
    }

    /// At the end of input an automaton stays where it is.
    pub fn next_eoi_state(&self, current: StateId) -> (next: StateId)
        ensures
            next == current,
    {
        current
    }

    /// The state every search begins in.
    pub fn start_state(&self) -> (start: StateId)
        ensures
            start == self@.start,
    {
        self.start_state
    }

    /// The dead state.
    pub fn dead_state(&self) -> (dead: StateId)
        ensures
            dead == self@.dead,
    {
        self.dead_state
    }

    /// Whether `id` is the dead state.
    pub fn is_dead_state(&self, id: StateId) -> (dead: bool)
        ensures
            dead == self@.is_dead(id),
    {
        id == self.dead_state
    }

    /// Whether `id` is a match state.
    pub fn is_match_state(&self, id: StateId) -> (matching: bool)
        ensures
            matching == self@.is_match(id),
    {
        self.match_states.contains(&id)
    }

    /// Whether `id` is the start state.
    pub fn is_start_state(&self, id: StateId) -> (start: bool)
        ensures
            start == self@.is_start(id),
    {
        id == self.start_state
    }
}

/// A run never leaves a state whose every step leads back to it.
proof fn lemma_stays(a: DfaModel, s: StateId, input: Seq<u8>)
    requires
        forall|b: u8| #[trigger] a.step(s, b) == s,
    ensures
        a.run(s, input) == s,
    decreases input.len(),
{
    if input.len() > 0 {
        lemma_stays(a, s, input.drop_last());
    }
}

/// The set of the states in `states`.
pub fn state_set(states: &Vec<StateId>) -> (set: HashSet<StateId>)
    ensures
        set@ == states@.to_set(),
{
    let mut set: HashSet<StateId> = HashSet::new();
    let mut i: usize = 0;
    while i < states.len()
        invariant
            i <= states.len(),
            set@ == states@.take(i as int).to_set(),
        decreases states.len() - i,
    {
        let ghost done = states@.take(i as int);
        set.insert(states[i]);
        i += 1;
        proof {
            assert(states@.take(i as int) =~= done.push(states@[i - 1]));
            assert(done.push(states@[i - 1]).to_set() =~= done.to_set().insert(states@[i - 1])) by {
                broadcast use vstd::seq_lib::lemma_seq_contains_after_push;
            }
        }
    }
    proof {
        assert(states@.take(i as int) =~= states@);
    }
    set
}

/// A copy of an edge list.
pub fn copy_edges(list: &Vec<TransitionDesc>) -> (copy: Vec<TransitionDesc>)
    ensures
        copy@ == list@,
{
    let mut copy: Vec<TransitionDesc> = Vec::new();
    let mut i: usize = 0;
    while i < list.len()
        invariant
            i <= list.len(),
            copy@ == list@.take(i as int),
        decreases list.len() - i,
    {
        let ghost done = list@.take(i as int);
        copy.push(list[i]);
        i += 1;
        proof {
            assert(list@.take(i as int) =~= done.push(list@[i - 1]));
        }
    }
    proof {
        assert(list@.take(i as int) =~= list@);
    }
    copy
}

/// Every state that `start`, `matches` or an edge of `table` refers to.
fn referenced_states(start: StateId, matches: &HashSet<StateId>, table: &TransitionTable) -> (out:
    Vec<StateId>)
    ensures
        forall|s: StateId|
            out@.contains(s) <==> referenced(start, matches@, lists_of(table@), s),
{
    let ghost lists = lists_of(table@);
    let mut out: Vec<StateId> = Vec::new();
    out.push(start);
    for m in it: matches.iter()
        invariant
            it.seq() == spec_hash_keys_iter(matches).remaining(),
            out@.contains(start),
            forall|s: StateId| out@.contains(s) ==> s == start || matches@.contains(s),
            forall|j: int| 0 <= j < it.index() ==> out@.contains(*#[trigger] it.seq()[j]),
    {
        proof {
            let r = spec_hash_keys_iter(matches).remaining();
            assert(r.unref().to_set().contains(r.unref()[it.index()]));
        }
        out.push(*m);
    }
    proof {
        let r = spec_hash_keys_iter(matches).remaining();
        assert forall|s: StateId| matches@.contains(s) implies out@.contains(s) by {
            assert(r.unref().to_set().contains(s));
            let j = choose|j: int| 0 <= j < r.unref().len() && r.unref()[j] == s;
            assert(out@.contains(*r[j]));
        }
    }
    for entry in it: table.iter()
        invariant
            lists == lists_of(table@),
            it.seq() == spec_hash_map_iter(table).remaining(),
            out@.contains(start),
            forall|s: StateId| matches@.contains(s) ==> out@.contains(s),
            forall|s: StateId| out@.contains(s) ==> referenced(start, matches@, lists, s),
            forall|j: int, i: int|
                #![trigger (*it.seq()[j].1)@[i]]
                0 <= j < it.index() && 0 <= i < (*it.seq()[j].1)@.len() ==> out@.contains(
                    (*it.seq()[j].1)@[i].target(),
                ),
    {
        let (source, list) = entry;
        proof {
            assert(table@.contains_key(*source) && table@[*source] == *list);
            assert(lists[*source] == list@);
        }
        let mut i: usize = 0;
        while i < list.len()
            invariant
                i <= list.len(),
                lists == lists_of(table@),
                lists.contains_key(*source),
                lists[*source] == list@,
                out@.contains(start),
                forall|s: StateId| matches@.contains(s) ==> out@.contains(s),
                forall|s: StateId| out@.contains(s) ==> referenced(start, matches@, lists, s),
                forall|j: int, i: int|
                    #![trigger (*it.seq()[j].1)@[i]]
                    0 <= j < it.index() && 0 <= i < (*it.seq()[j].1)@.len() ==> out@.contains(
                        (*it.seq()[j].1)@[i].target(),
                    ),
                forall|n: int| 0 <= n < i ==> out@.contains((#[trigger] list@[n]).target()),
            decreases list.len() - i,
        {
            let next = list[i].next();
            proof {
                assert(lists[*source][i as int].target() == next);
                assert(is_target(lists, next));
            }
            out.push(next);
            i += 1;
        }
    }
    proof {
        let r = spec_hash_map_iter(table).remaining();
        assert forall|s: StateId| is_target(lists, s) implies out@.contains(s) by {
            let (k, i) = choose|k: StateId, i: int|
                lists.contains_key(k) && 0 <= i < lists[k].len() && (#[trigger] lists[k][i]).target()
                    == s;
            assert(table@.contains_key(k));
            assert(r.contains((&k, &table@[k])));
            let j = choose|j: int| 0 <= j < r.len() && r[j] == (&k, &table@[k]);
            assert((*r[j].1)@[i].target() == s);
        }
    }
    out
}

/// The target of the first edge of `list` that admits `input`, and
/// `fallback` when none does.
pub fn first_target(list: &Vec<TransitionDesc>, input: u8, fallback: StateId) -> (next: StateId)
    ensures
        next == scan(list@, input, fallback),
{
    let mut i: usize = 0;
    proof {
        assert(list@.skip(0) =~= list@);
    }
    while i < list.len()
        invariant
            i <= list.len(),
            scan(list@, input, fallback) == scan(list@.skip(i as int), input, fallback),
        decreases list.len() - i,
    {
        if list[i].guards(input) {
            return list[i].next();
        }
        proof {
            assert(list@.skip(i as int).drop_first() =~= list@.skip(i + 1));
        }
        i += 1;
    }
    fallback
}

} // verus!
