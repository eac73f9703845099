use monitor::cli::select_mode;
use monitor::cli::type_tag;
use monitor::cli::ValidationMode;
use monitor::dfa::Dfa;
use monitor::error::MonitorError;
use monitor::ingest::dfa_from_json;
use monitor::ingest::JsonDfa;
use monitor::ingest::JsonTransition;
use monitor::report::incident_message;
use monitor::report::parse_pid;
use monitor::report::plan_report;
use monitor::report::trap_target;
use monitor::report::Report;
use monitor::report::MESSAGE_FILE_VARIABLE;
use monitor::report::TARGET_PID_VARIABLE;
use monitor::stream::validate_stream;
use monitor::stream::ValidationFailure;

fn some(text: &str) -> Option<String> {
    Some(String::from(text))
}

#[test]
fn incident_message_for_a_miss() {
    let failure = ValidationFailure::Whole(b"helo world".to_vec());
    assert_eq!(
        incident_message(&failure, "DFA"),
        b"Validation failed\nIncriminating line: helo world\nType: DFA".to_vec()
    );
}

#[test]
fn incident_message_for_a_partial_match() {
    let failure = ValidationFailure::Partial(b"hello world".to_vec());
    assert_eq!(
        incident_message(&failure, "Regex"),
        b"Validation failed (partial match)\nIncriminating line: hello world\nType: Regex".to_vec()
    );
}

#[test]
fn incident_message_for_an_empty_line() {
    let failure = ValidationFailure::Whole(Vec::new());
    assert_eq!(
        incident_message(&failure, "Regex"),
        b"Validation failed\nIncriminating line: \nType: Regex".to_vec()
    );
}

#[test]
fn incident_message_keeps_raw_bytes() {
    let failure = ValidationFailure::Whole(vec![0xFF, 0x00]);
    let mut expected = b"Validation failed\nIncriminating line: ".to_vec();
    expected.extend_from_slice(&[0xFF, 0x00]);
    expected.extend_from_slice("\nType: \u{e9}".as_bytes());
    assert_eq!(incident_message(&failure, "\u{e9}"), expected);
}

#[test]
fn pid_text_is_read_as_decimal() {
    assert_eq!(parse_pid("0"), Some(0));
    assert_eq!(parse_pid("1"), Some(1));
    assert_eq!(parse_pid("4242"), Some(4242));
    assert_eq!(parse_pid("+7"), Some(7));
    assert_eq!(parse_pid("-5"), Some(-5));
    assert_eq!(parse_pid("007"), Some(7));
    assert_eq!(parse_pid("2147483647"), Some(i32::MAX));
    assert_eq!(parse_pid("-2147483648"), Some(i32::MIN));
    assert_eq!(parse_pid("00000000000000000002147483647"), Some(i32::MAX));
}

#[test]
fn pid_text_that_is_no_number_is_refused() {
    for text in
        ["", "+", "-", "12a", "a12", " 12", "12 ", "1 2", "--1", "+-1", "1.0", "0x10", "١٢", "12\n", "é"]
    {
        assert_eq!(parse_pid(text), None);
    }
    assert_eq!(parse_pid("2147483648"), None);
    assert_eq!(parse_pid("-2147483649"), None);
    assert_eq!(parse_pid("99999999999999999999999999"), None);
    assert_eq!(parse_pid("99999999999999999999999999x"), None);
}

#[test]
fn pid_text_reads_as_the_standard_parser_does() {
    let samples = [
        "0", "-0", "+0", "12", "-12", "+12", "", "-", "+", "2147483647", "2147483648",
        "-2147483648", "-2147483649", "000", "1e3", "12345678901", "٣", "1_000", "９",
    ];
    for text in samples {
        assert_eq!(parse_pid(text), text.parse::<i32>().ok());
    }
}

#[test]
fn trap_needs_both_values() {
    assert_eq!(trap_target(None, some("12")).err(), Some(MonitorError::TrapMisconfigured));
    assert_eq!(trap_target(some("/tmp/m"), None).err(), Some(MonitorError::TrapMisconfigured));
    assert_eq!(trap_target(None, None).err(), Some(MonitorError::TrapMisconfigured));
    assert_eq!(
        trap_target(some("/tmp/m"), some("twelve")).err(),
        Some(MonitorError::TrapMisconfigured)
    );
    let target = trap_target(some("/tmp/m"), some("12")).unwrap();
    assert_eq!(target.message_file, "/tmp/m");
    assert_eq!(target.pid, 12);
}

#[test]
fn report_aborts_by_default() {
    match plan_report(false, some("/tmp/m"), some("12"), b"text".to_vec()) {
        Ok(Report::Abort(message)) => assert_eq!(message, b"text".to_vec()),
        _ => panic!("without trap mode the report aborts"),
    }
    match plan_report(false, None, None, b"text".to_vec()) {
        Ok(Report::Abort(message)) => assert_eq!(message, b"text".to_vec()),
        _ => panic!("without trap mode the environment is not read"),
    }
}

#[test]
fn report_traps_when_configured() {
    match plan_report(true, some("/tmp/m"), some("4242"), b"text".to_vec()) {
        Ok(Report::Trap(target, message)) => {
            assert_eq!(target.message_file, "/tmp/m");
            assert_eq!(target.pid, 4242);
            assert_eq!(message, b"text".to_vec());
        },
        _ => panic!("a configured trap is used"),
    }
}

#[test]
fn report_with_a_broken_trap_is_misconfigured() {
    assert_eq!(
        plan_report(true, None, some("12"), Vec::new()).err(),
        Some(MonitorError::TrapMisconfigured)
    );
    assert_eq!(
        plan_report(true, some("/tmp/m"), some(""), Vec::new()).err(),
        Some(MonitorError::TrapMisconfigured)
    );
}

#[test]
fn trap_delivery_carries_the_incident() {
    let dfa: Dfa = dfa_from_json(JsonDfa {
        start_state: 1,
        match_states: vec![3],
        transition_table: vec![
            JsonTransition { curr_state: 1, range_start: b'o', range_end: b'o', next_state: 2 },
            JsonTransition { curr_state: 2, range_start: b'k', range_end: b'k', next_state: 3 },
        ],
    })
    .unwrap();
    let outcome = validate_stream(&vec![b"bad".to_vec()], &dfa);
    let failure = outcome.failure.unwrap();
    let message = incident_message(&failure, "DFA");
    match plan_report(true, some("/tmp/incident"), some("31337"), message) {
        Ok(Report::Trap(target, message)) => {
            assert_eq!(target.pid, 31337);
            assert_eq!(target.message_file, "/tmp/incident");
            assert_eq!(message, b"Validation failed\nIncriminating line: bad\nType: DFA".to_vec());
        },
        _ => panic!("the incident goes to the trap"),
    }
}

#[test]
fn environment_variable_names() {
    assert_eq!(TARGET_PID_VARIABLE, "MONITOR_TARGET_PID");
    assert_eq!(MESSAGE_FILE_VARIABLE, "MONITOR_MESSAGE_FILE");
}

#[test]
fn exactly_one_mode_is_selected() {
    match select_mode(some("a.bc"), None, false) {
        Ok(ValidationMode::Dfa(path)) => assert_eq!(path, "a.bc"),
        _ => panic!("a path alone selects the encoded automaton"),
    }
    match select_mode::<String>(None, some("[a-z]+"), false) {
        Ok(ValidationMode::Regex(pattern)) => assert_eq!(pattern, "[a-z]+"),
        _ => panic!("a pattern alone selects the regular expression"),
    }
    match select_mode::<String>(None, None, true) {
        Ok(ValidationMode::NoValidation) => {},
        _ => panic!("the flag alone selects no validation"),
    }
}

#[test]
fn other_mode_combinations_are_usage_errors() {
    let refused = [
        (None, None, false),
        (some("a.bc"), some("x"), false),
        (some("a.bc"), None, true),
        (None, some("x"), true),
        (some("a.bc"), some("x"), true),
    ];
    for (dfa_path, regex, no_validation) in refused {
        assert_eq!(select_mode(dfa_path, regex, no_validation).err(), Some(MonitorError::Usage));
    }
}

#[test]
fn mode_names_in_incidents() {
    assert_eq!(type_tag(&ValidationMode::Dfa(String::from("a.bc"))), "DFA");
    assert_eq!(type_tag(&ValidationMode::<String>::Regex(String::from("x"))), "Regex");
    assert_eq!(type_tag(&ValidationMode::<String>::NoValidation), "Regex");
}
