use vstd::arithmetic::power::pow;
use vstd::prelude::*;
use vstd::string::StringSliceAdditionalSpecFns;

use crate::codec::{decode_symbols, encode_fixed, push_be, split_fields};
use crate::radix::{all_symbols, check_symbols, pow2_128, pow2_160, text_num};

verus! {

/// Unix time, in seconds, of the epoch that timestamps count from
/// (2014-05-13T16:53:20Z).
pub const EPOCH_UNIX_SECONDS: i64 = 1_400_000_000;

/// Number of symbols in the text form of an identifier.
pub const TEXT_LEN: usize = 27;

/// A K-sortable unique identifier: a 32-bit timestamp in seconds since the
/// custom epoch, then 128 bits of payload.
#[derive(Debug, Clone, Copy, PartialEq, Eq, Structural, PartialOrd, Ord, Hash)]
pub struct Ksuid {
    pub timestamp: u32,
    pub payload: u128,
}

/// Why a text is not the form of an identifier.
#[derive(Debug, Clone, Copy, PartialEq, Eq, Structural)]
pub enum DecodeError {
    /// A character is not one of `0-9`, `A-Z`, `a-z`.
    InvalidCharacter,
    /// The text is not 27 symbols long.
    InvalidLength,
    /// The 27 symbols stand for a number that does not fit in 160 bits.
    Overflow,
}

impl Ksuid {
    /// The 160-bit number whose big-endian bytes are the timestamp, then the payload.
    pub open spec fn value(self) -> int {
        self.timestamp * pow2_128() + self.payload
    }

    /// Field-wise order: timestamp first, then payload.
    pub open spec fn precedes(self, other: Ksuid) -> bool {
        self.timestamp < other.timestamp || (self.timestamp == other.timestamp && self.payload
            < other.payload)
    }

    /// Whether `text` is the text form of this identifier: 27 base-62 symbols
    /// that stand for its number.
    pub open spec fn is_text_of(self, text: Seq<char>) -> bool {
        &&& text.len() == 27
        &&& all_symbols(text)
        &&& text_num(text) == self.value()
    }

    /// Writes the identifier as 27 base-62 symbols: the number of its twenty
    /// big-endian bytes, zero-padded on the left.
    pub fn serialize(&self) -> (r: String)
        ensures
            self.is_text_of(r@),
    {
        let mut buf: Vec<u8> = Vec::new();
        proof {
            reveal_with_fuel(pow, 17);
        }
        push_be(&mut buf, self.timestamp as u128, 4);
        push_be(&mut buf, self.payload, 16);
        proof {
            assert(crate::radix::bytes_num(Seq::<u8>::empty()) == 0);
        }
        encode_fixed(&buf)
    }
}

/// Creates an identifier from the given fields; a missing timestamp is taken
/// from the clock, a missing payload is drawn at random.
pub fn new(timestamp: Option<u32>, payload: Option<u128>) -> (k: Ksuid)
    ensures
        timestamp matches Some(t) ==> k.timestamp == t,
        payload matches Some(p) ==> k.payload == p,
{
    let internal_timestamp = match timestamp {
        Some(t) => t,
        None => timestamp_from_unix(now_unix_seconds()),
    };
    let internal_payload = match payload {
        Some(p) => p,
        None => random_payload(),
    };
    Ksuid { timestamp: internal_timestamp, payload: internal_payload }
}

/// The timestamp field for a moment given in Unix seconds: seconds since the
/// custom epoch, zero for a moment before it, counted modulo `2^32`.
pub open spec fn timestamp_at(now: int) -> int {
    if now < EPOCH_UNIX_SECONDS {
        0
    } else {
        (now - EPOCH_UNIX_SECONDS) % 0x1_0000_0000
    }
}

/// The timestamp field for the moment `now`, in Unix seconds.
pub fn timestamp_from_unix(now: i64) -> (r: u32)
    ensures
        r == timestamp_at(now as int),
{
    if now < EPOCH_UNIX_SECONDS {
        0
    } else {
        (((now - EPOCH_UNIX_SECONDS) as u64) % 0x1_0000_0000) as u32
    }
}

/// The custom epoch, in Unix seconds.
pub fn gen_epoch() -> (r: i64)
    ensures
        r == EPOCH_UNIX_SECONDS,
{
    EPOCH_UNIX_SECONDS
}

/// The moment, in Unix seconds, that a timestamp field stands for.
pub fn to_std_epoch(timestamp: u32) -> (r: i64)
    ensures
        r == EPOCH_UNIX_SECONDS + timestamp,
{
    gen_epoch() + timestamp as i64
}

/// What reading `text` gives: the first failing check among the symbols, the
/// length and the 160-bit range, else the identifier whose number the text is.
pub open spec fn decoded(text: Seq<char>) -> Result<Ksuid, DecodeError> {
    if !all_symbols(text) {
        Err(DecodeError::InvalidCharacter)
    } else if text.len() != 27 {
        Err(DecodeError::InvalidLength)
    } else if text_num(text) >= pow2_160() {
        Err(DecodeError::Overflow)
    } else {
        Ok(
            Ksuid {
                timestamp: (text_num(text) / pow2_128()) as u32,
                payload: (text_num(text) % pow2_128()) as u128,
            },
        )
    }
}

/// Reads an identifier back from its 27-symbol text.
pub fn deserialize(text: &str) -> (r: Result<Ksuid, DecodeError>)
    ensures
        r == decoded(text@),
{
    if !check_symbols(text) {
        return Err(DecodeError::InvalidCharacter);
    }
    proof {
        assert forall|i: int| 0 <= i < text@.len() implies '\0' <= #[trigger] text@[i] <= '\u{7f}' by {
            assert(crate::radix::is_symbol(text@[i]));
        }
        assert(vstd::string::is_ascii(text));
        vstd::string::is_ascii_spec_bytes(text);
        assert(text.spec_bytes().len() == text@.len());
    }
    let n: usize = text.as_bytes().len();
    if n != TEXT_LEN {
        return Err(DecodeError::InvalidLength);
    }
    let bytes = decode_symbols(text);
    match split_fields(&bytes) {
        Some((timestamp, payload)) => {
            proof {
                vstd::arithmetic::div_mod::lemma_fundamental_div_mod_converse(
                    text_num(text@),
                    pow2_128(),
                    timestamp as int,
                    payload as int,
                );
            }
            Ok(Ksuid { timestamp, payload })
        },
        None => Err(DecodeError::Overflow),
    }
}

/// Relies on chrono's `From<SystemTime> for DateTime<Utc>` and
/// DateTime::timestamp: the current time in whole Unix seconds, negative for a
/// clock set before 1970 rather than a panic.
#[verifier::external_body]
fn now_unix_seconds() -> i64 {
    chrono::DateTime::<chrono::Utc>::from(std::time::SystemTime::now()).timestamp()
}

/// Relies on rand's StdRng, seeded by SeedableRng::from_entropy, and
/// Rng::sample with the Standard distribution: 128 uniformly random bits.
#[verifier::external_body]
fn random_payload() -> u128 {
    let mut rng: rand::rngs::StdRng = rand::SeedableRng::from_entropy();
    rand::Rng::sample(&mut rng, rand::distributions::Standard)
}

} // verus!
