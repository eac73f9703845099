//! Content-addressed naming of encoded automata, and the two entry points
//! of the cache: from an automaton to a named byte artifact, and from bytes
//! back to an automaton.

use crate::automaton::distinct_sources;
use crate::codec::bitcode_encoding;
use crate::codec::decoded;
use crate::codec::lemma_wire_round_trip;
use crate::codec::SerDfa;
use crate::codec::SerModel;
use crate::dfa::Dfa;
use crate::error::MonitorError;
use crate::ingest::described;
use crate::ingest::dfa_from_json;
use crate::ingest::ingestible;
use crate::ingest::JsonDfa;
use vstd::prelude::*;
use vstd::string::StrSliceExecFns;
use vstd::string::StringExecFns;

verus! {

/// The 32-byte BLAKE3 digest of a byte string.
pub uninterp spec fn blake3_digest(input: Seq<u8>) -> Seq<u8>;

/// Calls `blake3::hash`. Trusted: the result is the digest of the input,
/// which depends on the input alone.
#[verifier::external_body]
fn blake3_hash(input: &[u8]) -> (digest: [u8; 32])
    ensures
        digest@ == blake3_digest(input@),
{
    *blake3::hash(input).as_bytes()
}

/// The hexadecimal digit of a value below sixteen, in lower case.
pub open spec fn hex_digit(nibble: int) -> char {
    "0123456789abcdef"@[nibble]
}

/// The lower-case hexadecimal form of a byte string, two digits per byte,
/// the high digit first.
pub open spec fn hex_of(bytes: Seq<u8>) -> Seq<char>
    decreases bytes.len(),
{
    if bytes.len() == 0 {
        Seq::empty()
    } else {
        hex_of(bytes.drop_last()) + seq![
            hex_digit(bytes.last() as int / 16),
            hex_digit(bytes.last() as int % 16),
        ]
    }
}

/// The number of digest bytes that go into a file name.
pub const NAME_DIGEST_BYTES: usize = 4;

/// The name of the cache file for a digest: a fixed prefix, the first eight
/// hexadecimal digits of the digest, and a fixed extension.
pub open spec fn cache_file_name(digest: Seq<u8>) -> Seq<char> {
    "sdfa-"@ + hex_of(digest.take(NAME_DIGEST_BYTES as int)) + ".bc"@
}

/// The name of the directory that holds the cache.
pub fn cache_dir_name() -> (name: &'static str)
    ensures
        name@ == "serialized-dfa-cache"@,
{
    "serialized-dfa-cache"
}

/// Appends the two hexadecimal digits of `byte` to `text`.
fn push_hex(text: &mut String, byte: u8)
    ensures
        final(text)@ == old(text)@ + seq![
            hex_digit(byte as int / 16),
            hex_digit(byte as int % 16),
        ],
{
    let digits = "0123456789abcdef";
    proof {
        reveal_strlit("0123456789abcdef");
        assert(digits.is_ascii());
    }
    let high: usize = (byte / 16) as usize;
    let low: usize = (byte % 16) as usize;
    let first = digits.substring_ascii(high, high + 1);
    let second = digits.substring_ascii(low, low + 1);
    text.append(first);
    text.append(second);
    proof {
        assert(first@ =~= seq![hex_digit(byte as int / 16)]);
        assert(second@ =~= seq![hex_digit(byte as int % 16)]);
        assert(text@ =~= old(text)@ + seq![
            hex_digit(byte as int / 16),
            hex_digit(byte as int % 16),
        ]);
    }
}

/// The cache file name for a digest.
pub fn file_name_for_digest(digest: &[u8; 32]) -> (name: String)
    ensures
        name@ == cache_file_name(digest@),
{
    let mut name = String::from_str("sdfa-");
    let mut i: usize = 0;
    proof {
        assert(digest@.take(0) =~= Seq::<u8>::empty());
    }
    while i < NAME_DIGEST_BYTES
        invariant
            i <= NAME_DIGEST_BYTES,
            name@ == "sdfa-"@ + hex_of(digest@.take(i as int)),
        decreases NAME_DIGEST_BYTES - i,
    {
        let ghost done = digest@.take(i as int);
        push_hex(&mut name, digest[i]);
        i += 1;
        proof {
            let now = digest@.take(i as int);
            assert(now.drop_last() =~= done);
            assert(now.last() == digest@[i - 1]);
            assert(name@ =~= "sdfa-"@ + hex_of(now));
        }
    }
    name.append(".bc");
    name
}

/// The cache file name for an encoded automaton: it is named after the
/// digest of its bytes.
pub fn file_name_for(bytes: &[u8]) -> (name: String)
    ensures
        name@ == cache_file_name(blake3_digest(bytes@)),
{
    let digest = blake3_hash(bytes);
    file_name_for_digest(&digest)
}

/// An encoded automaton together with the name of its cache file.
#[derive(Debug)]
pub struct SerializedDfa {
    pub file_name: String,
    pub bytes: Vec<u8>,
}

impl Dfa {
    /// Encodes this automaton and names the artifact after its content. The
    /// bytes decode to this automaton again. Neither the bytes nor the name
    /// are fixed by the automaton alone, since its match states and table
    /// entries are encoded in no particular order.
    pub fn serialize(&self) -> (artifact: SerializedDfa)
        ensures
            decoded(artifact.bytes@) == Some(self@),
            artifact.file_name@ == cache_file_name(blake3_digest(artifact.bytes@)),
            exists|parts: SerModel|
                distinct_sources(parts.entries) && parts.model() == self@ && artifact.bytes@
                    == bitcode_encoding(#[trigger] parts.wire()),
    {
        let parts = SerDfa::from(self);
        let bytes = parts.serialize();
        proof {
            use_type_invariant(self);
            lemma_wire_round_trip(parts@);
            assert(parts@.meaning() == Some(self@));
            assert(distinct_sources(parts@.entries) && parts@.model() == self@ && bytes@
                == bitcode_encoding(parts@.wire()));
        }
        let file_name = file_name_for(bytes.as_slice());
        SerializedDfa { file_name, bytes }
    }

    /// Decodes an automaton from the bytes of a cache artifact. Bytes that
    /// do not decode, and decoded parts that break the invariant, are
    /// reported as a corrupt automaton.
    pub fn deserialize(bytes: &[u8]) -> (loaded: Result<Dfa, MonitorError>)
        ensures
            match loaded {
                Ok(dfa) => decoded(bytes@) == Some(dfa@) && dfa.wf(),
                Err(e) => decoded(bytes@) is None && e == MonitorError::CorruptAutomaton,
            },
    {
        match SerDfa::deserialize(bytes) {
            Ok(parts) => parts.to_dfa(),
            Err(e) => Err(e),
        }
    }

    /// Builds the automaton that a description stands for. The description
    /// is refused when one of its records has the dead state as its source.
    pub fn deserialize_from_json(json: JsonDfa) -> (built: Result<Dfa, MonitorError>)
        ensures
            match built {
                Ok(dfa) => {
                    &&& ingestible(json.transition_table@)
                    &&& dfa@ == described(
                        json.start_state,
                        json.match_states@,
                        json.transition_table@,
                    )
                    &&& dfa.wf()
                },
                Err(e) => {
                    &&& !ingestible(json.transition_table@)
                    &&& e == MonitorError::CorruptAutomaton
                },
            },
    {
        dfa_from_json(json)
    }
}

} // verus!
