//! The stream frontend: what to do with each line of a stream once it has
//! been classified, and what a whole run over a stream of lines yields.

use crate::automaton::Classification;
use crate::automaton::DfaModel;
use crate::dfa::Dfa;
use vstd::prelude::*;

verus! {

/// The byte that ends a line.
pub const NEWLINE: u8 = 0x0A;

/// The one expected failure of a run: a line that is not a full match.
#[derive(Debug)]
pub enum ValidationFailure {
    /// A proper prefix of the line is accepted, the line is not.
    Partial(Vec<u8>),
    /// Nothing of the line is accepted.
    Whole(Vec<u8>),
}

/// The mathematical value of a [`ValidationFailure`].
pub enum FailureModel {
    Partial(Seq<u8>),
    Whole(Seq<u8>),
}

impl View for ValidationFailure {
    type V = FailureModel;

    open spec fn view(&self) -> FailureModel {
        match self {
            ValidationFailure::Partial(line) => FailureModel::Partial(line@),
            ValidationFailure::Whole(line) => FailureModel::Whole(line@),
        }
    }
}

impl ValidationFailure {
    /// The offending line.
    pub fn line(&self) -> (line: &Vec<u8>)
        ensures
            self@ == FailureModel::Partial(line@) || self@ == FailureModel::Whole(line@),
    {
        match self {
            ValidationFailure::Partial(line) => line,
            ValidationFailure::Whole(line) => line,
        }
    }

    /// Whether part of the offending line was accepted.
    pub fn is_partial(&self) -> (partial: bool)
        ensures
            partial == (self@ is Partial),
    {
        match self {
            ValidationFailure::Partial(_) => true,
            ValidationFailure::Whole(_) => false,
        }
    }
}

/// What the frontend does with a line.
#[derive(Debug)]
pub enum Action {
    /// Write these bytes to the output, then read the next line.
    Forward(Vec<u8>),
    /// Stop reading and report this failure; nothing is written.
    Reject(ValidationFailure),
}

/// The bytes written for a validated line: the line, then a newline.
pub open spec fn emitted(line: Seq<u8>) -> Seq<u8> {
    line.push(NEWLINE)
}

/// The failure that a line with a classification other than a full match
/// gives rise to.
pub open spec fn failure_of(class: Classification, line: Seq<u8>) -> FailureModel {
    if class == Classification::Partial {
        FailureModel::Partial(line)
    } else {
        FailureModel::Whole(line)
    }
}

/// Whether the first `n` lines are all full matches.
pub open spec fn all_full(a: DfaModel, lines: Seq<Seq<u8>>, n: int) -> bool {
    forall|i: int| 0 <= i < n ==> a.classify(#[trigger] lines[i]) == Classification::Full
}

/// The bytes written for the first `n` lines: each line followed by a
/// newline, in the order of the lines.
pub open spec fn forwarded(lines: Seq<Seq<u8>>, n: int) -> Seq<u8>
    decreases n,
{
    if n <= 0 {
        Seq::empty()
    } else {
        forwarded(lines, n - 1) + emitted(lines[n - 1])
    }
}

/// The byte sequences that a sequence of lines holds.
pub open spec fn line_seqs(lines: Seq<Vec<u8>>) -> Seq<Seq<u8>> {
    Seq::new(lines.len(), |i: int| lines[i]@)
}

/// The state of a run over a stream: whether any line has been read yet.
#[derive(Debug)]
pub struct StreamValidator {
    seen_line: bool,
}

impl StreamValidator {
    /// Whether a line has been handed to this validator.
    pub closed spec fn seen_line(&self) -> bool {
        self.seen_line
    }

    /// The state before the first line.
    pub fn new() -> (fresh: Self)
        ensures
            !fresh.seen_line(),
    {
        StreamValidator { seen_line: false }
    }

    /// Decides what happens to a line that has been classified: a full
    /// match is forwarded with its newline, anything else ends the run with
    /// a failure that carries the line.
    pub fn on_line(&mut self, class: Classification, line: Vec<u8>) -> (action: Action)
        ensures
            final(self).seen_line(),
            match action {
                Action::Forward(bytes) => class == Classification::Full && bytes@ == emitted(
                    line@,
                ),
                Action::Reject(failure) => class != Classification::Full && failure@ == failure_of(
                    class,
                    line@,
                ),
            },
    {
        self.seen_line = true;
        match class {
            Classification::Full => {
                let mut bytes = line;
                bytes.push(NEWLINE);
                Action::Forward(bytes)
            },
            Classification::Partial => Action::Reject(ValidationFailure::Partial(line)),
            Classification::NoMatch => Action::Reject(ValidationFailure::Whole(line)),
        }
    }

    /// Decides how a run ends once the stream is exhausted. A stream
    /// without lines counts as one empty line: it fails, with an empty
    /// offending line, unless the empty line is accepted.
    pub fn on_end(&self, accepts_empty: bool) -> (end: Result<(), ValidationFailure>)
        ensures
            match end {
                Ok(_) => self.seen_line() || accepts_empty,
                Err(failure) => !self.seen_line() && !accepts_empty && failure@
                    == FailureModel::Whole(Seq::<u8>::empty()),
            },
    {
        if !self.seen_line && !accepts_empty {
            Err(ValidationFailure::Whole(Vec::new()))
        } else {
            Ok(())
        }
    }
}

/// What a run over a stream of lines has yielded.
#[derive(Debug)]
pub struct StreamOutcome {
    /// Everything that was written to the output.
    pub output: Vec<u8>,
    /// The number of lines that were forwarded.
    pub accepted: usize,
    /// The failure that ended the run, if one did.
    pub failure: Option<ValidationFailure>,
}

/// A copy of a line.
pub fn copy_line(line: &Vec<u8>) -> (copy: Vec<u8>)
    ensures
        copy@ == line@,
{
    let mut copy: Vec<u8> = Vec::new();
    append_bytes(&mut copy, line.as_slice());
    copy
}

/// Appends `more` to `bytes`.
pub fn append_bytes(bytes: &mut Vec<u8>, more: &[u8])
    ensures
        final(bytes)@ == old(bytes)@ + more@,
{
    let mut i: usize = 0;
    while i < more.len()
        invariant
            i <= more.len(),
            bytes@ == old(bytes)@ + more@.take(i as int),
        decreases more.len() - i,
    {
        let ghost done = more@.take(i as int);
        bytes.push(more[i]);
        i += 1;
        proof {
            assert(more@.take(i as int) =~= done.push(more@[i - 1]));
            assert(bytes@ =~= old(bytes)@ + more@.take(i as int));
        }
    }
    proof {
        assert(more@.take(i as int) =~= more@);
    }
}

/// Runs `dfa` over `stream`, one line after the other. Every line is
/// forwarded until the first that is not a full match; that line ends the
/// run and is not forwarded. A stream without lines fails unless the
/// automaton accepts the empty line.
pub fn validate_stream(stream: &Vec<Vec<u8>>, dfa: &Dfa) -> (outcome: StreamOutcome)
    ensures
        outcome.accepted <= stream@.len(),
        all_full(dfa@, line_seqs(stream@), outcome.accepted as int),
        outcome.output@ == forwarded(line_seqs(stream@), outcome.accepted as int),
        outcome.accepted < stream@.len() ==> {
            &&& dfa@.classify(stream@[outcome.accepted as int]@) != Classification::Full
            &&& outcome.failure matches Some(failure)
            &&& failure@ == failure_of(
                dfa@.classify(stream@[outcome.accepted as int]@),
                stream@[outcome.accepted as int]@,
            )
        },
        outcome.failure is None ==> outcome.output@ == forwarded(
            line_seqs(stream@),
            stream@.len() as int,
        ),
        outcome.accepted == stream@.len() ==> {
            if stream@.len() == 0 && !dfa@.accepts(Seq::<u8>::empty()) {
                outcome.failure matches Some(failure) && failure@ == FailureModel::Whole(
                    Seq::<u8>::empty(),
                )
            } else {
                outcome.failure is None
            }
        },
{
    let ghost lines = line_seqs(stream@);
    let mut validator = StreamValidator::new();
    let mut output: Vec<u8> = Vec::new();
    let mut i: usize = 0;
    while i < stream.len()
        invariant
            i <= stream.len(),
            lines == line_seqs(stream@),
            all_full(dfa@, lines, i as int),
            output@ == forwarded(lines, i as int),
            validator.seen_line() == (i > 0),
        decreases stream.len() - i,
    {
        let line = copy_line(&stream[i]);
        let class = dfa.classify(line.as_slice());
        proof {
            assert(lines[i as int] == stream@[i as int]@);
        }
        match validator.on_line(class, line) {
            Action::Forward(bytes) => {
                append_bytes(&mut output, bytes.as_slice());
            },
            Action::Reject(failure) => {
                return StreamOutcome { output, accepted: i, failure: Some(failure) };
            },
        }
        i += 1;
    }
    let start = dfa.start_state();
    let accepts_empty = dfa.is_match_state(start);
    proof {
        assert(dfa@.run(dfa@.start, Seq::<u8>::empty()) == dfa@.start);
    }
    match validator.on_end(accepts_empty) {
        Ok(_) => StreamOutcome { output, accepted: i, failure: None },
        Err(failure) => StreamOutcome { output, accepted: i, failure: Some(failure) },
    }
}

} // verus!
