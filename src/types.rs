use vstd::prelude::*;
use vstd::slice::slice_to_vec;
use crate::de::{parse_bytes_spec, parse_u64_spec, CordDeserializer};
use crate::error::CordError;
use crate::ser::{encode_bytes_spec, encode_unsigned_spec, CordSerializer};

verus! {

/// An opaque byte blob, encoded as a byte string.
#[derive(Clone, Debug, PartialEq, Eq)]
pub struct Bytes(Vec<u8>);

impl View for Bytes {
    type V = Seq<u8>;

    closed spec fn view(&self) -> Seq<u8> {
        self.0@
    }
}

impl Bytes {
    /// A blob that holds `v`.
    pub fn new(v: Vec<u8>) -> (r: Self)
        ensures
            r@ == v@,
    {
        Bytes(v)
    }

    /// A copy of the bytes held.
    pub fn to_vec(&self) -> (r: Vec<u8>)
        ensures
            r@ == self@,
    {
        slice_to_vec(self.0.as_slice())
    }

    /// The bytes held.
    pub fn into_vec(self) -> (r: Vec<u8>)
        ensures
            r@ == self@,
    {
        self.0
    }

    /// Writes the blob as a byte string.
    pub fn encode(&self, enc: &mut CordSerializer)
        ensures
            final(enc)@ == old(enc)@ + encode_bytes_spec(self@),
    {
        enc.write_bytes(self.0.as_slice());
    }

    /// Reads a blob; it owns a copy of the bytes.
    pub fn decode(dec: &mut CordDeserializer) -> (r: Result<Bytes, CordError>)
        ensures
            match parse_bytes_spec(old(dec)@) {
                Ok((b, rest)) => r is Ok && r->Ok_0@ == b && final(dec)@ == rest,
                Err(e) => r == Err::<Bytes, CordError>(e),
            },
    {
        let slice = dec.parse_bytes()?;
        Ok(Bytes(slice_to_vec(slice)))
    }
}

impl From<Vec<u8>> for Bytes {
    fn from(v: Vec<u8>) -> (r: Self) {
        Bytes(v)
    }
}

impl vstd::std_specs::convert::FromSpecImpl<Vec<u8>> for Bytes {
    open spec fn obeys_from_spec() -> bool {
        true
    }

    closed spec fn from_spec(v: Vec<u8>) -> Self {
        Bytes(v)
    }
}

/// Whole seconds of a millisecond timestamp, rounded toward zero.
pub open spec fn timestamp_secs(m: int) -> int {
    if m >= 0 {
        m / 1000
    } else {
        -((-m) / 1000)
    }
}

/// The sub-second part of a millisecond timestamp, in nanoseconds, taken
/// with the sign of the timestamp and then as a 32-bit unsigned value.
pub open spec fn timestamp_nanos(m: int) -> u32 {
    let r = m - 1000 * timestamp_secs(m);
    if r >= 0 {
        (r * 1_000_000) as u32
    } else {
        (0x1_0000_0000 + r * 1_000_000) as u32
    }
}

/// Whether chrono's `DateTime::<Utc>::from_timestamp` accepts these seconds
/// and nanoseconds.
pub uninterp spec fn timestamp_accepted(secs: i64, nsecs: u32) -> bool;

/// A millisecond timestamp that decodes: chrono accepts its seconds and
/// nanoseconds.
pub open spec fn decodable_millis(m: i64) -> bool {
    timestamp_accepted(timestamp_secs(m as int) as i64, timestamp_nanos(m as int))
}

/// Reading a timestamp: a `u64` varint taken as signed milliseconds, when it
/// decodes; nothing on any error.
pub open spec fn parse_datetime_spec(s: Seq<u8>) -> Option<(i64, Seq<u8>)> {
    match parse_u64_spec(s) {
        Ok((v, rest)) => if decodable_millis(v as i64) {
            Some((v as i64, rest))
        } else {
            None
        },
        Err(_) => None,
    }
}

/// Relies on chrono's `DateTime::<Utc>::from_timestamp`: whether the instant
/// is in chrono's range with a valid nanosecond part.
#[verifier::external_body]
fn chrono_accepts(secs: i64, nsecs: u32) -> (r: bool)
    ensures
        r == timestamp_accepted(secs, nsecs),
{
    chrono::DateTime::<chrono::Utc>::from_timestamp(secs, nsecs).is_some()
}

/// Relies on chrono's `Utc::now` and `timestamp_millis`: the current time in
/// milliseconds since the epoch.
#[verifier::external_body]
fn now_millis() -> (r: i64) {
    chrono::Utc::now().timestamp_millis()
}

/// Relies on `format!`: the message for a timestamp that does not decode.
#[verifier::external_body]
fn invalid_timestamp_message(v: u64) -> (r: String) {
    format!("timestamp {v} is invalid")
}

/// A UTC instant at millisecond resolution, encoded as its milliseconds since
/// the Unix epoch in a `u64` varint.
#[derive(Clone, Copy, Debug, PartialEq, Eq, PartialOrd)]
pub struct DateTime {
    millis: i64,
}

impl View for DateTime {
    type V = i64;

    /// Milliseconds since the Unix epoch.
    closed spec fn view(&self) -> i64 {
        self.millis
    }
}

impl DateTime {
    /// The instant `millis` milliseconds after the Unix epoch.
    pub fn from_millis(millis: i64) -> (r: Self)
        ensures
            r@ == millis,
    {
        DateTime { millis }
    }

    /// Milliseconds since the Unix epoch.
    pub fn millis(&self) -> (r: i64)
        ensures
            r == self@,
    {
        self.millis
    }

    /// The current instant.
    pub fn now() -> (r: Self) {
        DateTime { millis: now_millis() }
    }

    /// Writes the milliseconds, taken as unsigned, as a varint.
    pub fn encode(&self, enc: &mut CordSerializer)
        ensures
            final(enc)@ == old(enc)@ + encode_unsigned_spec(#[verifier::truncate] (self@ as u64)),
    {
        enc.write_u64(self.millis as u64);
    }

    /// The instant that a wire value names: the `u64` taken as signed
    /// milliseconds, refused with a deserialization error when chrono cannot
    /// represent it.
    pub fn from_wire(v: u64) -> (r: Result<DateTime, CordError>)
        ensures
            decodable_millis(v as i64) ==> r is Ok && r->Ok_0@ == v as i64,
            !decodable_millis(v as i64) ==> r is Err && r->Err_0 is DeserializationError,
    {
        let millis = v as i64;
        let mag: u64 = if millis >= 0 {
            millis as u64
        } else {
            (-(millis + 1)) as u64 + 1
        };
        let q: u64 = mag / 1000;
        let rem: u64 = mag % 1000;
        let secs: i64 = if millis >= 0 {
            q as i64
        } else {
            -(q as i64)
        };
        let nsecs: u32 = if millis >= 0 {
            (rem * 1_000_000) as u32
        } else if rem == 0 {
            0
        } else {
            (0x1_0000_0000u64 - rem * 1_000_000) as u32
        };
        proof {
            assert(secs == timestamp_secs(millis as int));
            assert(nsecs == timestamp_nanos(millis as int));
        }
        if chrono_accepts(secs, nsecs) {
            Ok(DateTime { millis })
        } else {
            Err(CordError::DeserializationError(invalid_timestamp_message(v)))
        }
    }

    /// Reads a timestamp. Fails as the `u64` read does, or with a
    /// deserialization error when chrono cannot represent the instant.
    pub fn decode(dec: &mut CordDeserializer) -> (r: Result<DateTime, CordError>)
        ensures
            match parse_datetime_spec(old(dec)@) {
                Some((m, rest)) => r is Ok && r->Ok_0@ == m && final(dec)@ == rest,
                None => r is Err,
            },
            match parse_u64_spec(old(dec)@) {
                Ok((v, _)) => !decodable_millis(v as i64) ==> r is Err
                    && r->Err_0 is DeserializationError,
                Err(e) => r == Err::<DateTime, CordError>(e),
            },
    {
        let v = dec.parse_u64()?;
        DateTime::from_wire(v)
    }

    /// The instant that RFC 3339 text names, as chrono reads it, at
    /// millisecond resolution.
    pub fn parse(s: &str) -> (r: Result<DateTime, CordError>)
        ensures
            match text_millis(s@) {
                Some(m) => r is Ok && r->Ok_0@ == m,
                None => r == Err::<DateTime, CordError>(unparsable_datetime()),
            },
    {
        match parse_millis(s) {
            Some(millis) => Ok(DateTime { millis }),
            None => Err(CordError::ValidationError("Failed to parse datetime")),
        }
    }
}

impl std::str::FromStr for DateTime {
    type Err = CordError;

    fn from_str(s: &str) -> Result<DateTime, CordError> {
        DateTime::parse(s)
    }
}

/// The error for text that names no instant.
pub open spec fn unparsable_datetime() -> CordError {
    CordError::ValidationError("Failed to parse datetime")
}

/// The milliseconds since the epoch of the instant that chrono reads from
/// `s` as a `DateTime<Utc>`, or nothing when it reads none.
pub uninterp spec fn text_millis(s: Seq<char>) -> Option<i64>;

/// Relies on chrono's `FromStr` for `DateTime<Utc>` and `timestamp_millis`:
/// the instant the text names, in milliseconds, rounded down.
#[verifier::external_body]
fn parse_millis(s: &str) -> (r: Option<i64>)
    ensures
        r == text_millis(s@),
{
    match s.parse::<chrono::DateTime<chrono::Utc>>() {
        Ok(d) => Some(d.timestamp_millis()),
        Err(_) => None,
    }
}

} // verus!
