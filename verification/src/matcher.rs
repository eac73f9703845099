//! The line matcher: runs an automaton over one line, anchored at both
//! ends, and says how the line relates to the automaton's language.

use crate::automaton::Classification;
use crate::automaton::DfaModel;
use crate::dfa::Dfa;
use crate::laws::lemma_dead_absorbs;
use crate::laws::lemma_run_extends;
use crate::laws::lemma_step_stays_in_table;
use vstd::prelude::*;

verus! {

/// Whether `end` is the length of the longest prefix of `line` that the
/// automaton accepts.
pub open spec fn is_longest_accepted(a: DfaModel, line: Seq<u8>, end: int) -> bool {
    &&& 0 <= end <= line.len()
    &&& a.accepts(line.take(end))
    &&& forall|n: int| end < n <= line.len() ==> !#[trigger] a.accepts(line.take(n))
}

/// Whether the automaton accepts no prefix of `line`, the line itself
/// included.
pub open spec fn accepts_no_prefix(a: DfaModel, line: Seq<u8>) -> bool {
    forall|n: int| 0 <= n <= line.len() ==> !#[trigger] a.accepts(line.take(n))
}

/// The classification of a line of length `line_len` whose longest accepted
/// prefix ends at `last_match_end`.
pub open spec fn class_of_match_end(last_match_end: Option<usize>, line_len: usize) -> Classification {
    match last_match_end {
        Some(end) => if end == line_len {
            Classification::Full
        } else {
            Classification::Partial
        },
        None => Classification::NoMatch,
    }
}

/// Classifies a line by the end of its longest accepted prefix: a full
/// match where that end is the end of the line, a partial match where it
/// lies before, and no match where nothing is accepted.
pub fn classify_match_end(last_match_end: Option<usize>, line_len: usize) -> (class: Classification)
    ensures
        class == class_of_match_end(last_match_end, line_len),
{
    match last_match_end {
        Some(end) => {
            if end == line_len {
                Classification::Full
            } else {
                Classification::Partial
            }
        },
        None => Classification::NoMatch,
    }
}

/// The end of the longest accepted prefix decides the classification.
pub proof fn lemma_class_of_match_end(a: DfaModel, line: Seq<u8>, last_match_end: Option<usize>)
    requires
        line.len() <= usize::MAX,
        match last_match_end {
            Some(end) => is_longest_accepted(a, line, end as int),
            None => accepts_no_prefix(a, line),
        },
    ensures
        a.classify(line) == class_of_match_end(last_match_end, line.len() as usize),
{
    assert(line.take(line.len() as int) =~= line);
    match last_match_end {
        Some(end) => {
            if end < line.len() {
                assert(!a.accepts(line.take(line.len() as int)));
                assert(a.accepts_proper_prefix(line));
            }
        },
        None => {
            assert(!a.accepts(line.take(line.len() as int)));
            assert(!a.accepts_proper_prefix(line)) by {
                if a.accepts_proper_prefix(line) {
                    let n = choose|n: int| 0 <= n < line.len() && #[trigger] a.accepts(line.take(n));
                    assert(!a.accepts(line.take(n)));
                }
            }
        },
    }
}

impl Dfa {
    /// Walks the automaton over `line` from its start state, one byte at a
    /// time, until the line ends or the dead state is reached, and returns
    /// the end of the longest prefix that is accepted, if there is one.
    pub fn last_match_end(&self, line: &[u8]) -> (last_match_end: Option<usize>)
        ensures
            match last_match_end {
                Some(end) => is_longest_accepted(self@, line@, end as int),
                None => accepts_no_prefix(self@, line@),
            },
    {
        let ghost a = self@;
        let mut state = self.start_state();
        let mut last_match_end: Option<usize> = None;
        let mut i: usize = 0;
        proof {
            use_type_invariant(self);
            assert(line@.take(0) =~= Seq::<u8>::empty());
        }
        while i < line.len()
            invariant
                a == self@,
                a.wf(),
                i <= line.len(),
                state == a.run(a.start, line@.take(i as int)),
                a.table.contains_key(state),
                match last_match_end {
                    Some(end) => end < i && a.accepts(line@.take(end as int)) && forall|n: int|
                        end < n < i ==> !#[trigger] a.accepts(line@.take(n)),
                    None => forall|n: int| 0 <= n < i ==> !#[trigger] a.accepts(line@.take(n)),
                },
            ensures
                forall|n: int|
                    i <= n <= line.len() ==> #[trigger] a.run(a.start, line@.take(n)) == state,
            decreases line.len() - i,
        {
            if self.is_match_state(state) {
                last_match_end = Some(i);
            }
            proof {
                lemma_run_extends(a, a.start, line@, i as int);
                lemma_step_stays_in_table(a, state, line@[i as int]);
            }
            state = self.next_state_unchecked(state, line[i]);
            i += 1;
            if self.is_dead_state(state) {
                proof {
                    assert forall|n: int| i <= n <= line.len() implies #[trigger] a.run(
                        a.start,
                        line@.take(n),
                    ) == state by {
                        assert(line@.take(n).take(i as int) =~= line@.take(i as int));
                        lemma_dead_absorbs(a, a.start, line@.take(n), i as int);
                    }
                }
                break ;
            }
        }
        if self.is_match_state(state) {
            Some(line.len())
        } else {
            last_match_end
        }
    }

    /// Classifies `line`, which holds the bytes of one line without its
    /// newline: a full match where the whole line is accepted, a partial
    /// match where only a proper prefix is, and no match otherwise.
    pub fn classify(&self, line: &[u8]) -> (class: Classification)
        ensures
            class == self@.classify(line@),
    {
        let line_len = line.len();
        let last_match_end = self.last_match_end(line);
        proof {
            lemma_class_of_match_end(self@, line@, last_match_end);
        }
        classify_match_end(last_match_end, line_len)
    }
}

} // verus!
