use monitor::automaton::Classification;
use monitor::automaton::TransitionDesc;
use monitor::dfa::Dfa;
use monitor::error::MonitorError;
use monitor::ingest::convert_json_transitions;
use monitor::ingest::dfa_from_json;
use monitor::ingest::JsonDfa;
use monitor::ingest::JsonTransition;

fn record(curr_state: u32, range_start: u8, range_end: u8, next_state: u32) -> JsonTransition {
    JsonTransition { curr_state, range_start, range_end, next_state }
}

#[test]
fn records_become_single_or_range_edges() {
    assert_eq!(record(1, b'a', b'a', 2).to_transition(), TransitionDesc::Match(b'a', 2));
    assert_eq!(record(1, b'a', b'z', 2).to_transition(), TransitionDesc::Range(b'a', b'z', 2));
    assert_eq!(record(1, b'z', b'a', 2).to_transition(), TransitionDesc::Range(b'z', b'a', 2));
}

#[test]
fn records_are_grouped_by_source_in_input_order() {
    let table = convert_json_transitions(vec![
        record(1, b'a', b'a', 2),
        record(2, b'x', b'x', 1),
        record(1, 0x00, 0xFF, 3),
        record(2, b'0', b'9', 2),
        record(1, b'b', b'b', 4),
    ]);
    assert_eq!(
        table.get(&1),
        Some(&vec![
            TransitionDesc::Match(b'a', 2),
            TransitionDesc::Range(0x00, 0xFF, 3),
            TransitionDesc::Match(b'b', 4),
        ])
    );
    assert_eq!(
        table.get(&2),
        Some(&vec![TransitionDesc::Match(b'x', 1), TransitionDesc::Range(b'0', b'9', 2)])
    );
    assert_eq!(table.get(&3), Some(&vec![]));
    assert_eq!(table.get(&4), Some(&vec![]));
    assert_eq!(table.len(), 4);
}

#[test]
fn no_records_give_an_empty_table() {
    assert!(convert_json_transitions(vec![]).is_empty());
}

#[test]
fn description_preserves_first_match_wins() {
    let dfa = dfa_from_json(JsonDfa {
        start_state: 1,
        match_states: vec![2],
        transition_table: vec![record(1, b'a', b'a', 2), record(1, 0x00, 0xFF, 3)],
    })
    .unwrap();
    assert_eq!(dfa.next_state(1, b'a'), Ok(2));
    assert_eq!(dfa.next_state(1, b'b'), Ok(3));
    assert_eq!(dfa.classify(b"a"), Classification::Full);
    assert_eq!(dfa.classify(b"b"), Classification::NoMatch);
}

#[test]
fn description_with_dead_state_source_is_corrupt() {
    let built = dfa_from_json(JsonDfa {
        start_state: 1,
        match_states: vec![1],
        transition_table: vec![record(1, b'a', b'a', 1), record(0, b'a', b'a', 1)],
    });
    assert_eq!(built.err(), Some(MonitorError::CorruptAutomaton));
    let built = Dfa::deserialize_from_json(JsonDfa {
        start_state: 1,
        match_states: vec![],
        transition_table: vec![record(0, 0x00, 0xFF, 0)],
    });
    assert_eq!(built.err(), Some(MonitorError::CorruptAutomaton));
}

#[test]
fn description_may_lead_into_the_dead_state() {
    let dfa = dfa_from_json(JsonDfa {
        start_state: 1,
        match_states: vec![1],
        transition_table: vec![record(1, b'a', b'a', 1), record(1, b'x', b'x', 0)],
    })
    .unwrap();
    assert_eq!(dfa.next_state(1, b'x'), Ok(0));
    assert_eq!(dfa.next_state(0, b'a'), Ok(0));
    assert_eq!(dfa.classify(b"aa"), Classification::Full);
    assert_eq!(dfa.classify(b"aaxa"), Classification::Partial);
}

#[test]
fn description_gives_start_and_match_states_entries() {
    let dfa = Dfa::deserialize_from_json(JsonDfa {
        start_state: 7,
        match_states: vec![8, 9, 8],
        transition_table: vec![],
    })
    .unwrap();
    for state in [0u32, 7, 8, 9] {
        assert_eq!(dfa.next_state(state, b'a'), Ok(0));
    }
    assert_eq!(dfa.next_state(1, b'a'), Err(MonitorError::CorruptAutomaton));
    let mut matches = dfa.match_states();
    matches.sort();
    assert_eq!(matches, vec![8, 9]);
    assert_eq!(dfa.classify(b""), Classification::NoMatch);
}

#[test]
fn description_with_start_in_matches_accepts_the_empty_line() {
    let dfa = dfa_from_json(JsonDfa {
        start_state: 1,
        match_states: vec![1],
        transition_table: vec![record(1, 0x00, 0xFF, 1)],
    })
    .unwrap();
    assert_eq!(dfa.classify(b""), Classification::Full);
    assert_eq!(dfa.classify(b"abc"), Classification::Full);
}
