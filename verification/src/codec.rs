//! The entry codec: conversion between the domain form of a value record and
//! the compact form the persistent store holds, with its TTL arithmetic.
//!
//! Instants are modelled as seconds on a monotonic clock, handed in by the
//! caller; only a duration survives persistence, so a decoded expiry is
//! always relative to decode time.

use crate::kad_store::StoreError;
use crate::keyspace::is_valid_peer_bytes;
use crate::keyspace::peer_bytes_valid;
use vstd::prelude::*;

verus! {

/// Persisted form of a value record: the value bytes, the publisher's
/// identifier bytes (empty when there is no publisher), and a TTL in seconds
/// (0 meaning "never expires").
#[derive(Clone, Debug, PartialEq)]
pub struct Record {
    pub value: Vec<u8>,
    pub publisher: Vec<u8>,
    pub ttl: u32,
}

/// Spec view of a persisted record.
pub ghost struct RecordV {
    pub value: Seq<u8>,
    pub publisher: Seq<u8>,
    pub ttl: u32,
}

impl View for Record {
    type V = RecordV;

    open spec fn view(&self) -> RecordV {
        RecordV { value: self.value@, publisher: self.publisher@, ttl: self.ttl }
    }
}

/// A persisted record together with the key it is stored under.
#[derive(Clone, Debug, PartialEq)]
pub struct Entry(pub Vec<u8>, pub Record);

impl View for Entry {
    type V = (Seq<u8>, RecordV);

    open spec fn view(&self) -> (Seq<u8>, RecordV) {
        (self.0@, self.1@)
    }
}

/// Domain form of a value record, as the DHT engine sees it. The expiry is
/// an optional absolute instant, in seconds.
#[derive(Clone, Debug, PartialEq)]
pub struct ValueRecord {
    pub key: Vec<u8>,
    pub value: Vec<u8>,
    pub publisher: Option<Vec<u8>>,
    pub expires: Option<u64>,
}

/// Spec view of a domain value record.
pub ghost struct ValueRecordV {
    pub key: Seq<u8>,
    pub value: Seq<u8>,
    pub publisher: Option<Seq<u8>>,
    pub expires: Option<u64>,
}

impl View for ValueRecord {
    type V = ValueRecordV;

    open spec fn view(&self) -> ValueRecordV {
        ValueRecordV {
            key: self.key@,
            value: self.value@,
            publisher: match self.publisher {
                Option::None => Option::None,
                Option::Some(p) => Option::Some(p@),
            },
            expires: self.expires,
        }
    }
}

/// A value record whose publisher, if any, is a well-formed (hence
/// non-empty) peer identifier.
pub open spec fn value_record_wf(r: ValueRecordV) -> bool {
    r.publisher matches Some(p) ==> p.len() > 0 && is_valid_peer_bytes(p)
}

/// The TTL persisted for an expiry: 0 for "never expires"; otherwise the
/// remaining seconds, clamped below to 1 (so an expiring record is never
/// mistaken for a non-expiring one) and above to what the TTL field holds.
pub open spec fn encode_ttl(expires: Option<u64>, now: u64) -> u32 {
    match expires {
        None => 0,
        Some(e) => {
            let remaining = if e > now {
                e - now
            } else {
                0
            };
            let clamped = if remaining < 1 {
                1
            } else {
                remaining
            };
            if clamped > u32::MAX {
                u32::MAX
            } else {
                clamped as u32
            }
        },
    }
}

/// The expiry a persisted TTL decodes to, relative to decode time: 0 maps to
/// "never expires", anything else to that many seconds from now (saturating).
pub open spec fn decode_expiry(ttl: u32, now: u64) -> Option<u64> {
    if ttl == 0 {
        None
    } else {
        Some(
            if now + ttl > u64::MAX {
                u64::MAX
            } else {
                (now + ttl) as u64
            },
        )
    }
}

/// The persisted entry a value record encodes to at time `now`.
pub open spec fn encode_spec(r: ValueRecordV, now: u64) -> (Seq<u8>, RecordV) {
    (
        r.key,
        RecordV {
            value: r.value,
            publisher: match r.publisher {
                None => Seq::empty(),
                Some(p) => p,
            },
            ttl: encode_ttl(r.expires, now),
        },
    )
}

/// Whether a persisted record decodes at all: its publisher bytes are either
/// absent or a valid peer identifier.
pub open spec fn decode_ok(rec: RecordV) -> bool {
    rec.publisher.len() == 0 || is_valid_peer_bytes(rec.publisher)
}

/// The value record a persisted entry decodes to at time `now`.
pub open spec fn decode_spec(key: Seq<u8>, rec: RecordV, now: u64) -> ValueRecordV {
    ValueRecordV {
        key,
        value: rec.value,
        publisher: if rec.publisher.len() == 0 {
            None
        } else {
            Some(rec.publisher)
        },
        expires: decode_expiry(rec.ttl, now),
    }
}

/// Encodes a value record for persistence at time `now`.
pub fn encode(record: ValueRecord, now: u64) -> (e: Entry)
    ensures
        e@ == encode_spec(record@, now),
{
    let ttl: u32 = match record.expires {
        None => 0,
        Some(e) => {
            let remaining: u64 = if e > now {
                e - now
            } else {
                0
            };
            let clamped: u64 = if remaining < 1 {
                1
            } else {
                remaining
            };
            if clamped > u32::MAX as u64 {
                u32::MAX
            } else {
                clamped as u32
            }
        },
    };
    let publisher: Vec<u8> = match record.publisher {
        None => Vec::new(),
        Some(p) => p,
    };
    Entry(record.key, Record { value: record.value, publisher, ttl })
}

/// Decodes a persisted entry at time `now`. Fails with `DecodeError` exactly
/// when the publisher bytes are non-empty yet no valid peer identifier.
pub fn decode(entry: Entry, now: u64) -> (r: Result<ValueRecord, StoreError>)
    ensures
        decode_ok(entry.1@) ==> (r matches Ok(v) && v@ == decode_spec(entry.0@, entry.1@, now)),
        !decode_ok(entry.1@) ==> (r matches Err(e) && e == StoreError::DecodeError),
{
    let Entry(key, rec) = entry;
    let publisher: Option<Vec<u8>> = if rec.publisher.len() == 0 {
        None
    } else if peer_bytes_valid(&rec.publisher) {
        Some(rec.publisher)
    } else {
        return Err(StoreError::DecodeError);
    };
    let expires: Option<u64> = if rec.ttl == 0 {
        None
    } else {
        Some(now.saturating_add(rec.ttl as u64))
    };
    Ok(ValueRecord { key, value: rec.value, publisher, expires })
}

/// Encoding a well-formed value record and decoding it at the same instant
/// returns the record back: key, value and publisher exactly, and the expiry
/// up to the one-second clamp of the TTL quantization. The inputs left out
/// are an already-expired record and a remaining lifetime beyond what the
/// TTL field can hold.
pub proof fn lemma_codec_round_trip(r: ValueRecordV, now: u64)
    requires
        value_record_wf(r),
        r.expires matches Some(e) ==> now <= e && e - now <= u32::MAX,
    ensures
        decode_ok(encode_spec(r, now).1),
        ({
            let d = decode_spec(encode_spec(r, now).0, encode_spec(r, now).1, now);
            &&& d.key == r.key
            &&& d.value == r.value
            &&& d.publisher == r.publisher
            &&& (d.expires is None <==> r.expires is None)
            &&& (r.expires matches Some(e) ==> d.expires matches Some(d2) && e <= d2 <= e + 1)
        }),
{
    let enc = encode_spec(r, now).1;
    match r.publisher {
        None => {
            assert(enc.publisher.len() == 0);
        },
        Some(p) => {
            assert(enc.publisher == p);
        },
    }
    match r.expires {
        None => {},
        Some(e) => {
            assert(encode_ttl(r.expires, now) >= 1);
        },
    }
}

} // verus!
