use monitor::automaton::Classification;
use monitor::dfa::Dfa;
use monitor::ingest::dfa_from_json;
use monitor::ingest::JsonDfa;
use monitor::ingest::JsonTransition;
use monitor::stream::append_bytes;
use monitor::stream::copy_line;
use monitor::stream::validate_stream;
use monitor::stream::Action;
use monitor::stream::StreamValidator;
use monitor::stream::ValidationFailure;

fn record(curr_state: u32, range_start: u8, range_end: u8, next_state: u32) -> JsonTransition {
    JsonTransition { curr_state, range_start, range_end, next_state }
}

/// Accepts exactly `text`.
fn dfa_from_literal(text: &str) -> Dfa {
    let mut transition_table = Vec::new();
    for (i, byte) in text.bytes().enumerate() {
        transition_table.push(record(i as u32 + 1, byte, byte, i as u32 + 2));
    }
    dfa_from_json(JsonDfa {
        start_state: 1,
        match_states: vec![text.len() as u32 + 1],
        transition_table,
    })
    .unwrap()
}

/// `[a-z]+ [a-z]*\.`
fn words_then_dot() -> Dfa {
    dfa_from_json(JsonDfa {
        start_state: 1,
        match_states: vec![4],
        transition_table: vec![
            record(1, b'a', b'z', 2),
            record(2, b'a', b'z', 2),
            record(2, b' ', b' ', 3),
            record(3, b'a', b'z', 3),
            record(3, b'.', b'.', 4),
        ],
    })
    .unwrap()
}

/// One or more bytes of any kind.
fn at_least_one_byte() -> Dfa {
    dfa_from_json(JsonDfa {
        start_state: 1,
        match_states: vec![2],
        transition_table: vec![record(1, 0x00, 0xFF, 2), record(2, 0x00, 0xFF, 2)],
    })
    .unwrap()
}

fn lines(text: &str) -> Vec<Vec<u8>> {
    text.lines().map(|line| line.as_bytes().to_vec()).collect()
}

fn failure_parts(failure: Option<ValidationFailure>) -> Option<(bool, Vec<u8>)> {
    failure.map(|failure| (failure.is_partial(), failure.line().clone()))
}

#[test]
fn tests_simple_match() {
    let stream = lines("hello world\n");
    let dfa = dfa_from_literal("hello world");
    let outcome = validate_stream(&stream, &dfa);
    assert!(outcome.failure.is_none());
    assert_eq!(outcome.output, b"hello world\n".to_vec());
    assert_eq!(outcome.accepted, 1);
}

#[test]
fn tests_basic_regex_match() {
    let stream = lines("hello world.\n");
    let dfa = words_then_dot();
    let outcome = validate_stream(&stream, &dfa);
    assert!(outcome.failure.is_none());
    assert_eq!(outcome.output, b"hello world.\n".to_vec());
}

#[test]
fn literal_miss_is_reported_with_its_line() {
    let stream = lines("helo world\n");
    let dfa = dfa_from_literal("hello world");
    let outcome = validate_stream(&stream, &dfa);
    assert_eq!(outcome.output, Vec::<u8>::new());
    assert_eq!(outcome.accepted, 0);
    assert_eq!(failure_parts(outcome.failure), Some((false, b"helo world".to_vec())));
}

#[test]
fn partial_match_is_reported_as_partial() {
    let stream = lines("hello world\n");
    let dfa = dfa_from_literal("hello");
    assert_eq!(dfa.classify(b"hello world"), Classification::Partial);
    let outcome = validate_stream(&stream, &dfa);
    assert_eq!(outcome.output, Vec::<u8>::new());
    assert_eq!(failure_parts(outcome.failure), Some((true, b"hello world".to_vec())));
}

#[test]
fn character_class_miss_is_reported() {
    let dfa = words_then_dot();
    assert_eq!(dfa.classify(b"hello world."), Classification::Full);
    assert_eq!(dfa.classify(b"hello w0rld."), Classification::NoMatch);
    let outcome = validate_stream(&lines("hello w0rld.\n"), &dfa);
    assert_eq!(outcome.output, Vec::<u8>::new());
    assert_eq!(failure_parts(outcome.failure), Some((false, b"hello w0rld.".to_vec())));
}

#[test]
fn empty_stream_passes_a_permissive_automaton() {
    let outcome = validate_stream(&Vec::new(), &Dfa::accept_all());
    assert!(outcome.failure.is_none());
    assert_eq!(outcome.output, Vec::<u8>::new());
    assert_eq!(outcome.accepted, 0);
}

#[test]
fn empty_stream_fails_a_strict_automaton() {
    let outcome = validate_stream(&Vec::new(), &at_least_one_byte());
    assert_eq!(outcome.output, Vec::<u8>::new());
    assert_eq!(failure_parts(outcome.failure), Some((false, Vec::new())));
}

#[test]
fn one_empty_line_is_not_an_empty_stream() {
    let outcome = validate_stream(&vec![Vec::new()], &Dfa::accept_all());
    assert!(outcome.failure.is_none());
    assert_eq!(outcome.output, b"\n".to_vec());
    let outcome = validate_stream(&vec![Vec::new()], &at_least_one_byte());
    assert_eq!(failure_parts(outcome.failure), Some((false, Vec::new())));
    assert_eq!(outcome.accepted, 0);
}

#[test]
fn lines_are_forwarded_in_order() {
    let stream = lines("b .\nalpha beta.\nz z.\n");
    let outcome = validate_stream(&stream, &words_then_dot());
    assert!(outcome.failure.is_none());
    assert_eq!(outcome.accepted, 3);
    assert_eq!(outcome.output, b"b .\nalpha beta.\nz z.\n".to_vec());
}

#[test]
fn nothing_is_forwarded_after_the_first_failure() {
    let stream = lines("a b.\nc d.\nnot this\ne f.\n");
    let outcome = validate_stream(&stream, &words_then_dot());
    assert_eq!(outcome.accepted, 2);
    assert_eq!(outcome.output, b"a b.\nc d.\n".to_vec());
    assert_eq!(failure_parts(outcome.failure), Some((false, b"not this".to_vec())));
}

#[test]
fn bytes_are_forwarded_verbatim() {
    let stream = vec![vec![0x00, 0xFF, 0x80, b'\r'], vec![0xC3, 0x28]];
    let outcome = validate_stream(&stream, &Dfa::accept_all());
    assert!(outcome.failure.is_none());
    assert_eq!(outcome.output, vec![0x00, 0xFF, 0x80, b'\r', b'\n', 0xC3, 0x28, b'\n']);
}

#[test]
fn validator_decides_line_by_line() {
    let mut validator = StreamValidator::new();
    match validator.on_line(Classification::Full, b"ok".to_vec()) {
        Action::Forward(bytes) => assert_eq!(bytes, b"ok\n".to_vec()),
        Action::Reject(_) => panic!("a full match is forwarded"),
    }
    match validator.on_line(Classification::Partial, b"okay".to_vec()) {
        Action::Reject(ValidationFailure::Partial(line)) => assert_eq!(line, b"okay".to_vec()),
        _ => panic!("a partial match is rejected as partial"),
    }
    match validator.on_line(Classification::NoMatch, b"bad".to_vec()) {
        Action::Reject(ValidationFailure::Whole(line)) => assert_eq!(line, b"bad".to_vec()),
        _ => panic!("a miss is rejected as a whole"),
    }
}

#[test]
fn validator_ends_a_stream() {
    let fresh = StreamValidator::new();
    assert!(fresh.on_end(true).is_ok());
    assert_eq!(failure_parts(fresh.on_end(false).err()), Some((false, Vec::new())));
    let mut used = StreamValidator::new();
    used.on_line(Classification::Full, Vec::new());
    assert!(used.on_end(false).is_ok());
    assert!(used.on_end(true).is_ok());
}

#[test]
fn byte_helpers() {
    let mut bytes = b"ab".to_vec();
    append_bytes(&mut bytes, b"cd");
    assert_eq!(bytes, b"abcd".to_vec());
    append_bytes(&mut bytes, b"");
    assert_eq!(bytes, b"abcd".to_vec());
    assert_eq!(copy_line(&b"line".to_vec()), b"line".to_vec());
}
