//! Record framing: one key/value mutation as a self-describing, checksummed
//! byte frame.
//!
//! ```text
//! | version (u8) | crc (u32) | length (u32) | key length (u32) | key | value length (u32) | value |
//! ```
//!
//! `length` counts the bytes after the three header fields, and `crc` is the
//! CRC-32 of exactly those bytes. Integers are big-endian.
use vstd::prelude::*;
use vstd::slice::slice_subrange;

use crate::bytes::{
    be_bytes, be_value, get_u32, lemma_be_bytes_of_value, lemma_be_round_trip, put_slice, put_u32,
};

verus! {

pub const RECORD_ENCODING_V0: u8 = 0;

pub const NEWEST_RECORD_ENCODING_VERSION: u8 = RECORD_ENCODING_V0;

pub const VERSION_SIZE: usize = 1;

pub const CRC_SIZE: usize = 4;

pub const RECORD_LENGTH_SIZE: usize = 4;

pub const KEY_LENGTH_SIZE: usize = 4;

pub const VALUE_LENGTH_SIZE: usize = 4;

/// Bytes of the header in front of the checksummed part of a frame.
pub const HEADER_SIZE: usize = 9;

/// The largest value that a `u32` length field can hold.
pub const MAX_FIELD: u64 = 0xffff_ffff;

/// The CRC-32 (IEEE) checksum of a byte string.
pub uninterp spec fn crc32_of(data: Seq<u8>) -> u32;

/// Relies on `crc32fast::hash`: the CRC-32 checksum of the bytes, which
/// depends on those bytes alone.
#[verifier::external_body]
fn crc32(data: &[u8]) -> (r: u32)
    ensures
        r == crc32_of(data@),
{
    crc32fast::hash(data)
}

#[allow(inconsistent_fields)]
#[derive(Debug, Clone, Copy, PartialEq, Eq)]
pub enum Error {
    /// The frame was written with another codec version.
    Version { expected: u8, given: u8 },
    /// The key and value do not fit the frame's `u32` length fields.
    Encoding { key_len: usize, value_len: usize },
    /// The buffer holds fewer bytes than the frame declares.
    LengthMismatch { expected: usize, actual: usize },
    /// The checksummed part of the frame does not match its checksum.
    ChecksumMismatch { expected: u32, actual: u32 },
    /// The key and value lengths inside the frame disagree with its length.
    InvalidRecord { length: u32 },
}

/// A record, borrowing its key and value.
pub struct Record<'a> {
    /// The version number of the record.
    pub version: u8,
    /// The CRC checksum of the record.
    pub crc: u32,
    /// The length of the record (excluding version, crc and length).
    pub length: u32,
    /// The length of the key in bytes.
    pub key_length: u32,
    /// Common log key.
    pub key: &'a [u8],
    /// The length of the value in bytes.
    pub value_length: u32,
    /// Common log value.
    pub value: &'a [u8],
}

/// What a record holds, as plain values.
pub struct RecordView {
    pub version: u8,
    pub crc: u32,
    pub length: u32,
    pub key_length: u32,
    pub key: Seq<u8>,
    pub value_length: u32,
    pub value: Seq<u8>,
}

impl<'a> View for Record<'a> {
    type V = RecordView;

    open spec fn view(&self) -> RecordView {
        RecordView {
            version: self.version,
            crc: self.crc,
            length: self.length,
            key_length: self.key_length,
            key: self.key@,
            value_length: self.value_length,
            value: self.value@,
        }
    }
}

/// The part of a frame that the checksum covers.
pub open spec fn body_bytes(key: Seq<u8>, value: Seq<u8>) -> Seq<u8> {
    be_bytes(key.len() as u32) + key + be_bytes(value.len() as u32) + value
}

/// Whether a key and value fit the frame's `u32` length fields.
pub open spec fn fits(key: Seq<u8>, value: Seq<u8>) -> bool {
    8 + key.len() + value.len() <= MAX_FIELD
}

/// The record that `Record::new` builds from a key and a value.
pub open spec fn record_of(key: Seq<u8>, value: Seq<u8>) -> RecordView {
    RecordView {
        version: NEWEST_RECORD_ENCODING_VERSION,
        crc: crc32_of(body_bytes(key, value)),
        length: (8 + key.len() + value.len()) as u32,
        key_length: key.len() as u32,
        key,
        value_length: value.len() as u32,
        value,
    }
}

/// The bytes that encoding writes for a record, its fields as they stand.
pub open spec fn record_bytes(r: RecordView) -> Seq<u8> {
    seq![r.version] + be_bytes(r.crc) + be_bytes(r.length) + be_bytes(r.key_length) + r.key
        + be_bytes(r.value_length) + r.value
}

/// The whole frame for a key and a value.
#[verifier::opaque]
pub open spec fn frame(key: Seq<u8>, value: Seq<u8>) -> Seq<u8> {
    record_bytes(record_of(key, value))
}

/// The big-endian integer stored at `i` in `s`.
pub open spec fn be_at(s: Seq<u8>, i: int) -> u32 {
    be_value(s.subrange(i, i + 4))
}

/// The length that the header at the front of `buf` declares.
pub open spec fn declared_length(buf: Seq<u8>) -> u32 {
    be_at(buf, 5)
}

/// The checksum that the header at the front of `buf` declares.
pub open spec fn declared_crc(buf: Seq<u8>) -> u32 {
    be_at(buf, 1)
}

/// The checksummed part of the frame at the front of `buf`.
pub open spec fn declared_body(buf: Seq<u8>) -> Seq<u8> {
    buf.subrange(9, 9 + declared_length(buf))
}

/// Whether a checksummed part splits into key length, key, value length and
/// value with nothing left over.
pub open spec fn body_well_formed(body: Seq<u8>) -> bool {
    &&& body.len() >= 8
    &&& be_at(body, 0) + 8 <= body.len()
    &&& be_at(body, 4 + be_at(body, 0)) + be_at(body, 0) + 8 == body.len()
}

/// What decoding the frame at the front of `buf` gives, with `version` the
/// supported codec version.
pub open spec fn decode_spec(version: u8, buf: Seq<u8>) -> Result<RecordView, Error> {
    if buf.len() < HEADER_SIZE {
        Err(Error::LengthMismatch { expected: HEADER_SIZE, actual: buf.len() as usize })
    } else if buf.len() - HEADER_SIZE < declared_length(buf) {
        Err(
            Error::LengthMismatch {
                expected: declared_length(buf) as usize,
                actual: (buf.len() - HEADER_SIZE) as usize,
            },
        )
    } else if crc32_of(declared_body(buf)) != declared_crc(buf) {
        Err(
            Error::ChecksumMismatch {
                expected: declared_crc(buf),
                actual: crc32_of(declared_body(buf)),
            },
        )
    } else if buf[0] != version {
        Err(Error::Version { expected: version, given: buf[0] })
    } else if !body_well_formed(declared_body(buf)) {
        Err(Error::InvalidRecord { length: declared_length(buf) })
    } else {
        let body = declared_body(buf);
        let kl = be_at(body, 0);
        Ok(
            RecordView {
                version: buf[0],
                crc: declared_crc(buf),
                length: declared_length(buf),
                key_length: kl,
                key: body.subrange(4, 4 + kl),
                value_length: be_at(body, 4 + kl),
                value: body.subrange(8 + kl, body.len() as int),
            },
        )
    }
}

/// The number of bytes that the frame at the front of `buf` takes.
pub open spec fn frame_size(buf: Seq<u8>) -> int {
    HEADER_SIZE + declared_length(buf)
}

/// Decoding the frame built for a key and a value, whatever bytes follow it,
/// gives back that key, that value and the newest version, and the frame takes
/// exactly its own length.
pub proof fn lemma_round_trip(key: Seq<u8>, value: Seq<u8>, rest: Seq<u8>)
    requires
        fits(key, value),
    ensures
        decode_spec(NEWEST_RECORD_ENCODING_VERSION, frame(key, value) + rest) == Ok::<
            RecordView,
            Error,
        >(record_of(key, value)),
        record_of(key, value).key == key,
        record_of(key, value).value == value,
        record_of(key, value).version == NEWEST_RECORD_ENCODING_VERSION,
        frame(key, value).len() == HEADER_SIZE + 8 + key.len() + value.len(),
        frame_size(frame(key, value) + rest) == frame(key, value).len(),
{
    reveal(frame);
    let r = record_of(key, value);
    let f = frame(key, value);
    let buf = f + rest;
    let body = body_bytes(key, value);
    let kl = key.len() as int;
    lemma_be_round_trip(r.crc);
    lemma_be_round_trip(r.length);
    lemma_be_round_trip(r.key_length);
    lemma_be_round_trip(r.value_length);
    assert(f =~= seq![r.version] + be_bytes(r.crc) + be_bytes(r.length) + body);
    assert(buf.subrange(1, 5) =~= be_bytes(r.crc));
    assert(buf.subrange(5, 9) =~= be_bytes(r.length));
    assert(declared_body(buf) =~= body);
    assert(body.subrange(0, 4) =~= be_bytes(r.key_length));
    assert(body.subrange(4 + kl, 8 + kl) =~= be_bytes(r.value_length));
    assert(body.subrange(4, 4 + kl) =~= key);
    assert(body.subrange(8 + kl, body.len() as int) =~= value);
}

/// Flipping one bit inside the checksummed part of a frame is seen by the
/// checksum: the covered bytes differ from those of the frame as written, and
/// unless CRC-32 maps the two byte strings to the same value, decoding
/// reports a checksum mismatch and gives no record.
pub proof fn lemma_bit_flip_detected(key: Seq<u8>, value: Seq<u8>, rest: Seq<u8>, i: int, bit: u8)
    requires
        fits(key, value),
        HEADER_SIZE <= i < frame(key, value).len(),
        bit < 8,
    ensures
        ({
            let buf = frame(key, value) + rest;
            let flipped = buf.update(i, buf[i] ^ (1u8 << bit));
            &&& declared_body(flipped) != body_bytes(key, value)
            &&& crc32_of(declared_body(flipped)) != crc32_of(body_bytes(key, value))
                ==> decode_spec(NEWEST_RECORD_ENCODING_VERSION, flipped) == Err::<RecordView, Error>(
                Error::ChecksumMismatch {
                    expected: crc32_of(body_bytes(key, value)),
                    actual: crc32_of(declared_body(flipped)),
                },
            )
        }),
{
    reveal(frame);
    let r = record_of(key, value);
    let f = frame(key, value);
    let body = body_bytes(key, value);
    let buf = f + rest;
    lemma_be_round_trip(r.crc);
    lemma_be_round_trip(r.length);
    assert(f =~= seq![r.version] + be_bytes(r.crc) + be_bytes(r.length) + body);
    let x = buf[i];
    let flipped = buf.update(i, x ^ (1u8 << bit));
    assert(x ^ (1u8 << bit) != x) by (bit_vector)
        requires
            bit < 8,
    ;
    assert(flipped.subrange(1, 5) =~= be_bytes(r.crc));
    assert(flipped.subrange(5, 9) =~= be_bytes(r.length));
    assert(declared_body(flipped).len() == body.len());
    assert(declared_body(flipped)[i - 9] != body[i - 9]);
}


/// A record that decodes is exactly the record built for its key and value.
pub proof fn lemma_decoded_is_built(buf: Seq<u8>)
    requires
        decode_spec(NEWEST_RECORD_ENCODING_VERSION, buf) is Ok,
    ensures
        ({
            let r = decode_spec(NEWEST_RECORD_ENCODING_VERSION, buf)->Ok_0;
            fits(r.key, r.value) && r == record_of(r.key, r.value)
        }),
{
    let r = decode_spec(NEWEST_RECORD_ENCODING_VERSION, buf)->Ok_0;
    let body = declared_body(buf);
    let kl = be_at(body, 0) as int;
    lemma_be_bytes_of_value(body.subrange(0, 4));
    lemma_be_bytes_of_value(body.subrange(4 + kl, 8 + kl));
    assert(body =~= be_bytes(kl as u32) + r.key + be_bytes(r.value_length) + r.value);
    assert(body == body_bytes(r.key, r.value));
}

impl<'a> Record<'a> {
    /// Builds the record for a key and a value, with its checksum.
    pub fn new(key: &'a [u8], value: &'a [u8]) -> (r: Result<Record<'a>, Error>)
        ensures
            fits(key@, value@) ==> (r matches Ok(rec) && rec@ == record_of(key@, value@)),
            !fits(key@, value@) ==> r == Err::<Record<'a>, Error>(
                Error::Encoding { key_len: key@.len() as usize, value_len: value@.len() as usize },
            ),
    {
        if key.len() as u64 > MAX_FIELD - 8 || value.len() as u64 > MAX_FIELD - 8 - key.len() as u64 {
            return Err(Error::Encoding { key_len: key.len(), value_len: value.len() });
        }
        let key_length = key.len() as u32;
        let value_length = value.len() as u32;
        let mut buf: Vec<u8> = Vec::new();
        put_u32(&mut buf, key_length);
        put_slice(&mut buf, key);
        put_u32(&mut buf, value_length);
        put_slice(&mut buf, value);
        assert(buf@ =~= body_bytes(key@, value@));
        let crc = crc32(buf.as_slice());
        Ok(
            Record {
                version: NEWEST_RECORD_ENCODING_VERSION,
                crc,
                length: key_length + value_length + 8,
                key_length,
                key,
                value_length,
                value,
            },
        )
    }

    /// The number of bytes that the encoded record takes.
    pub fn len(&self) -> (r: usize)
        requires
            HEADER_SIZE + self.length <= usize::MAX,
        ensures
            r == HEADER_SIZE + self.length,
    {
        VERSION_SIZE + CRC_SIZE + RECORD_LENGTH_SIZE + self.length as usize
    }
}

/// Encodes and decodes records of one codec version.
#[derive(Clone, Debug)]
pub struct RecordEncoding {
    version: u8,
}

impl RecordEncoding {
    pub closed spec fn version(&self) -> u8 {
        self.version
    }

    /// The encoding of the newest codec version.
    pub fn newest() -> (r: Self)
        ensures
            r.version() == NEWEST_RECORD_ENCODING_VERSION,
    {
        Self { version: NEWEST_RECORD_ENCODING_VERSION }
    }

    /// Appends the frame of `record` to `buf`; a record of another version is
    /// refused and `buf` is left as it was.
    pub fn encode(&self, buf: &mut Vec<u8>, record: &Record) -> (r: Result<(), Error>)
        ensures
            record.version == self.version() ==> r is Ok && final(buf)@ == old(buf)@
                + record_bytes(record@),
            record.version != self.version() ==> r == Err::<(), Error>(
                Error::Version { expected: self.version(), given: record.version },
            ) && final(buf)@ == old(buf)@,
    {
        if record.version != self.version {
            return Err(Error::Version { expected: self.version, given: record.version });
        }
        buf.push(record.version);
        put_u32(buf, record.crc);
        put_u32(buf, record.length);
        put_u32(buf, record.key_length);
        put_slice(buf, record.key);
        put_u32(buf, record.value_length);
        put_slice(buf, record.value);
        assert(buf@ =~= old(buf)@ + record_bytes(record@));
        Ok(())
    }

    /// The number of bytes that `encode` writes for a well-formed record.
    pub fn estimate_encoded_size(&self, record: &Record) -> (r: usize)
        requires
            HEADER_SIZE + record.length <= usize::MAX,
        ensures
            r == HEADER_SIZE + record.length,
    {
        record.len()
    }

    /// Decodes the frame at the front of `buf`. The key and value of the
    /// record borrow from `buf`.
    pub fn decode<'a>(&self, buf: &'a [u8]) -> (r: Result<Record<'a>, Error>)
        ensures
            match r {
                Ok(rec) => decode_spec(self.version(), buf@) == Ok::<RecordView, Error>(rec@),
                Err(e) => decode_spec(self.version(), buf@) == Err::<RecordView, Error>(e),
            },
    {
        let n = buf.len();
        if n < HEADER_SIZE {
            return Err(Error::LengthMismatch { expected: HEADER_SIZE, actual: n });
        }
        let version = buf[0];
        let crc = get_u32(buf, 1);
        let length = get_u32(buf, 5);
        if ((n - HEADER_SIZE) as u64) < length as u64 {
            return Err(Error::LengthMismatch { expected: length as usize, actual: n - HEADER_SIZE });
        }
        let blen = length as usize;
        let body = slice_subrange(buf, HEADER_SIZE, HEADER_SIZE + blen);
        let computed = crc32(body);
        if computed != crc {
            return Err(Error::ChecksumMismatch { expected: crc, actual: computed });
        }
        if version != self.version {
            return Err(Error::Version { expected: self.version, given: version });
        }
        if blen < 8 {
            return Err(Error::InvalidRecord { length });
        }
        let key_length = get_u32(body, 0);
        if key_length as usize > blen - 8 {
            return Err(Error::InvalidRecord { length });
        }
        let kl = key_length as usize;
        let value_length = get_u32(body, 4 + kl);
        if value_length as usize != blen - 8 - kl {
            return Err(Error::InvalidRecord { length });
        }
        let key = slice_subrange(body, 4, 4 + kl);
        let value = slice_subrange(body, 8 + kl, blen);
        Ok(Record { version, crc, length, key_length, key, value_length, value })
    }
}

} // verus!
