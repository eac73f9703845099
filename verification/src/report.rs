//! The failure reporter: the text of an incident, and where it goes.

use crate::error::MonitorError;
use crate::stream::append_bytes;
use crate::stream::FailureModel;
use crate::stream::ValidationFailure;
use vstd::prelude::*;
use vstd::string::StringSliceAdditionalSpecFns;

verus! {

broadcast use vstd::string::is_ascii_spec_bytes;

/// The environment variable that names the process to signal.
pub const TARGET_PID_VARIABLE: &'static str = "MONITOR_TARGET_PID";

/// The environment variable that names the file the incident is written to.
pub const MESSAGE_FILE_VARIABLE: &'static str = "MONITOR_MESSAGE_FILE";

/// The text of an incident: what failed, the offending line and the kind of
/// validation that was asked for.
pub open spec fn incident_text(failure: FailureModel, type_tag: Seq<u8>) -> Seq<u8> {
    match failure {
        FailureModel::Partial(line) => "Validation failed (partial match)\nIncriminating line: ".spec_bytes()
            + line + "\nType: ".spec_bytes() + type_tag,
        FailureModel::Whole(line) => "Validation failed\nIncriminating line: ".spec_bytes() + line
            + "\nType: ".spec_bytes() + type_tag,
    }
}

/// Writes the text of an incident.
pub fn incident_message(failure: &ValidationFailure, type_tag: &str) -> (message: Vec<u8>)
    ensures
        message@ == incident_text(failure@, type_tag.spec_bytes()),
{
    let mut message: Vec<u8> = Vec::new();
    match failure {
        ValidationFailure::Partial(line) => {
            append_bytes(
                &mut message,
                "Validation failed (partial match)\nIncriminating line: ".as_bytes(),
            );
            append_bytes(&mut message, line.as_slice());
        },
        ValidationFailure::Whole(line) => {
            append_bytes(&mut message, "Validation failed\nIncriminating line: ".as_bytes());
            append_bytes(&mut message, line.as_slice());
        },
    }
    append_bytes(&mut message, "\nType: ".as_bytes());
    append_bytes(&mut message, type_tag.as_bytes());
    proof {
        assert(message@ =~= incident_text(failure@, type_tag.spec_bytes()));
    }
    message
}

/// Whether `c` is a decimal digit.
pub open spec fn is_digit(c: char) -> bool {
    '0' <= c && c <= '9'
}

/// Whether `text` holds decimal digits only.
pub open spec fn all_digits(text: Seq<char>) -> bool {
    forall|i: int| 0 <= i < text.len() ==> is_digit(#[trigger] text[i])
}

/// The number that a string of decimal digits denotes.
pub open spec fn decimal_value(digits: Seq<char>) -> int
    decreases digits.len(),
{
    if digits.len() == 0 {
        0
    } else {
        decimal_value(digits.drop_last()) * 10 + (digits.last() as int - '0' as int)
    }
}

/// The process identifier that a text denotes: an optional sign, then one
/// or more decimal digits, with a value that fits in 32 bits.
pub open spec fn parsed_pid(text: Seq<char>) -> Option<i32> {
    let negative = text.len() > 0 && text[0] == '-';
    let signed = text.len() > 0 && (text[0] == '-' || text[0] == '+');
    let digits = if signed {
        text.skip(1)
    } else {
        text
    };
    let value = if negative {
        -decimal_value(digits)
    } else {
        decimal_value(digits)
    };
    if digits.len() > 0 && all_digits(digits) && i32::MIN <= value <= i32::MAX {
        Some(value as i32)
    } else {
        None
    }
}

/// A digit string denotes at least what any of its prefixes denotes.
pub proof fn lemma_decimal_value_grows(digits: Seq<char>, n: int)
    requires
        all_digits(digits),
        0 <= n <= digits.len(),
    ensures
        0 <= decimal_value(digits.take(n)) <= decimal_value(digits),
    decreases digits.len() - n,
{
    if n == digits.len() {
        assert(digits.take(n) =~= digits);
        lemma_decimal_value_is_natural(digits);
    } else {
        let longer = digits.take(n + 1);
        assert(longer.drop_last() =~= digits.take(n));
        assert(is_digit(digits[n]));
        lemma_decimal_value_is_natural(digits.take(n));
        lemma_decimal_value_grows(digits, n + 1);
    }
}

/// A digit string denotes a natural number.
pub proof fn lemma_decimal_value_is_natural(digits: Seq<char>)
    requires
        all_digits(digits),
    ensures
        0 <= decimal_value(digits),
    decreases digits.len(),
{
    if digits.len() > 0 {
        assert(is_digit(digits[digits.len() - 1]));
        assert forall|i: int| 0 <= i < digits.drop_last().len() implies is_digit(
            #[trigger] digits.drop_last()[i],
        ) by {
            assert(is_digit(digits[i]));
        }
        lemma_decimal_value_is_natural(digits.drop_last());
    }
}

/// Reads a process identifier from its decimal text.
pub fn parse_pid(text: &str) -> (pid: Option<i32>)
    ensures
        pid == parsed_pid(text@),
{
    let ghost chars = text@;
    if !text.is_ascii() {
        proof {
            let i = choose|i: int| 0 <= i < chars.len() && !('\0' <= #[trigger] chars[i] <= '\u{7f}');
            let signed = chars[0] == '-' || chars[0] == '+';
            if signed {
                assert(i > 0);
                assert(!is_digit(chars.skip(1)[i - 1]));
            } else {
                assert(!is_digit(chars[i]));
            }
        }
        return None;
    }
    let bytes = text.as_bytes();
    proof {
        assert(bytes@ =~= Seq::new(chars.len(), |i: int| chars[i] as u8));
    }
    if bytes.len() == 0 {
        return None;
    }
    let negative = bytes[0] == 0x2D;
    let signed = negative || bytes[0] == 0x2B;
    let first: usize = if signed {
        1
    } else {
        0
    };
    let ghost digits = if signed {
        chars.skip(1)
    } else {
        chars
    };
    proof {
        assert(chars[0] as u8 == bytes@[0]);
        assert(negative == (chars[0] == '-'));
        assert(signed == (chars[0] == '-' || chars[0] == '+'));
        assert(digits.len() == bytes.len() - first);
    }
    if first == bytes.len() {
        return None;
    }
    let mut value: i64 = 0;
    let mut i: usize = first;
    proof {
        assert(digits.take(0) =~= Seq::<char>::empty());
    }
    while i < bytes.len()
        invariant
            first <= i <= bytes.len(),
            first <= 1,
            chars == text@,
            chars.len() > 0,
            negative == (chars[0] == '-'),
            signed == (chars[0] == '-' || chars[0] == '+'),
            digits == if signed {
                chars.skip(1)
            } else {
                chars
            },
            digits.len() == bytes.len() - first,
            forall|n: int| 0 <= n < digits.len() ==> #[trigger] digits[n] as u8 == bytes@[n + first],
            forall|n: int| 0 <= n < digits.len() ==> '\0' <= #[trigger] digits[n] <= '\u{7f}',
            all_digits(digits.take(i - first)),
            value == decimal_value(digits.take(i - first)),
            0 <= value <= 2147483648,
        decreases bytes.len() - i,
    {
        let ghost done = digits.take(i - first);
        let byte = bytes[i];
        proof {
            assert(digits[i - first] as u8 == byte);
        }
        if byte < 0x30 || byte > 0x39 {
            proof {
                assert(!is_digit(digits[i - first]));
            }
            return None;
        }
        value = value * 10 + (byte - 0x30) as i64;
        i += 1;
        proof {
            let now = digits.take(i - first);
            assert(now.drop_last() =~= done);
            assert(now.last() == digits[i - first - 1]);
            assert(is_digit(now.last()));
            assert forall|n: int| 0 <= n < now.len() implies is_digit(#[trigger] now[n]) by {
                if n < done.len() {
                    assert(is_digit(done[n]));
                }
            }
        }
        if value > 2147483648 {
            proof {
                if all_digits(digits) {
                    lemma_decimal_value_grows(digits, i - first);
                }
            }
            return None;
        }
    }
    proof {
        assert(digits.take(i - first) =~= digits);
    }
    if negative {
        Some((0 - value) as i32)
    } else if value > 2147483647 {
        None
    } else {
        Some(value as i32)
    }
}

/// Where a trap-mode incident goes: the file that receives the message and
/// the process that receives the signal.
#[derive(Debug)]
pub struct TrapTarget {
    pub message_file: String,
    pub pid: i32,
}

/// Reads the trap configuration from the values of the two environment
/// variables. It is refused when either value is missing or when the
/// process identifier cannot be read.
pub fn trap_target(message_file: Option<String>, target_pid: Option<String>) -> (target: Result<
    TrapTarget,
    MonitorError,
>)
    ensures
        match target {
            Ok(t) => {
                &&& message_file == Some(t.message_file)
                &&& target_pid matches Some(text)
                &&& parsed_pid(text@) == Some(t.pid)
            },
            Err(e) => {
                &&& e == MonitorError::TrapMisconfigured
                &&& (message_file is None || target_pid is None || parsed_pid(target_pid->0@)
                    is None)
            },
        },
{
    let message_file = match message_file {
        Some(path) => path,
        None => {
            return Err(MonitorError::TrapMisconfigured);
        },
    };
    let text = match target_pid {
        Some(text) => text,
        None => {
            return Err(MonitorError::TrapMisconfigured);
        },
    };
    match parse_pid(text.as_str()) {
        Some(pid) => Ok(TrapTarget { message_file, pid }),
        None => Err(MonitorError::TrapMisconfigured),
    }
}

/// How an incident is delivered.
#[derive(Debug)]
pub enum Report {
    /// Print the message to the diagnostic stream and end with a failure
    /// status.
    Abort(Vec<u8>),
    /// Write the message to the target's file, signal the target's process
    /// and end with success.
    Trap(TrapTarget, Vec<u8>),
}

/// Decides how an incident is delivered: aborting by default, and through
/// the trap where trap mode is on and its configuration can be read.
pub fn plan_report(
    trap: bool,
    message_file: Option<String>,
    target_pid: Option<String>,
    message: Vec<u8>,
) -> (plan: Result<Report, MonitorError>)
    ensures
        match plan {
            Ok(Report::Abort(text)) => !trap && text == message,
            Ok(Report::Trap(target, text)) => {
                &&& trap
                &&& text == message
                &&& message_file == Some(target.message_file)
                &&& target_pid matches Some(pid_text)
                &&& parsed_pid(pid_text@) == Some(target.pid)
            },
            Err(e) => {
                &&& trap
                &&& e == MonitorError::TrapMisconfigured
                &&& (message_file is None || target_pid is None || parsed_pid(target_pid->0@)
                    is None)
            },
        },
{
    if !trap {
        return Ok(Report::Abort(message));
    }
    match trap_target(message_file, target_pid) {
        Ok(target) => Ok(Report::Trap(target, message)),
        Err(e) => Err(e),
    }
}

} // verus!
