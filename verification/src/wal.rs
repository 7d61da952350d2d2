//! The write-ahead log as a byte format: how a record is framed for
//! appending, and how the bytes of a log are read back into records.
//!
//! A log is a run of frames. A frame is the length of its payload as four
//! big-endian bytes, then the payload: one key and one value in bincode's
//! encoding. Reading ends without error where fewer than four bytes are
//! left, so a length that was cut short is dropped with the end of the log.
//! A length that announces more payload than the log still holds is an
//! error: a torn last record is reported, not skipped.

use crate::codec::{
    decode_pair, encode_pair, lemma_pair_roundtrip, pair_decoding, pair_encoding,
};
use crate::endian::{
    be_bytes, be_value, lemma_be_roundtrip, lemma_pow256_values, push_be_u32, read_be_u32,
};
use crate::kv::KvPair;
use crate::replay::Write;
use vstd::prelude::*;
use vstd::slice::slice_subrange;

verus! {

/// Why a record could not be framed or a log could not be read.
#[derive(Clone, Copy, Debug, PartialEq, Eq, Structural)]
pub enum WalError {
    /// The log ends inside the payload of its last frame.
    UnexpectedEof,
    /// A payload does not hold a key and a value.
    Deserialize,
    /// An encoder handed on a failure in place of a payload.
    Serialize,
    /// The payload is too long for a four-byte length.
    RecordTooLarge,
}

impl WalError {
    /// The error in words.
    pub open spec fn spec_message(&self) -> Seq<char> {
        match self {
            WalError::UnexpectedEof => "Log ends inside a record"@,
            WalError::Deserialize => "Record cannot be decoded"@,
            WalError::Serialize => "Record cannot be encoded"@,
            WalError::RecordTooLarge => "Record is too large"@,
        }
    }

    /// The error in words.
    pub fn message(&self) -> (s: String)
        ensures
            s@ == self.spec_message(),
    {
        match self {
            WalError::UnexpectedEof => "Log ends inside a record".to_owned(),
            WalError::Deserialize => "Record cannot be decoded".to_owned(),
            WalError::Serialize => "Record cannot be encoded".to_owned(),
            WalError::RecordTooLarge => "Record is too large".to_owned(),
        }
    }
}

/// The handle of one log: the place where its bytes are kept.
pub struct Wal {
    location: String,
}

// ---------------------------------------------------------------------------
// The format
// ---------------------------------------------------------------------------

/// A payload with its length in front.
pub open spec fn frame(payload: Seq<u8>) -> Seq<u8> {
    be_bytes(payload.len(), 4) + payload
}

/// The bytes that one record adds to the log.
pub open spec fn record_frame(key: Seq<u8>, value: Seq<u8>) -> Seq<u8> {
    frame(pair_encoding(key, value))
}

/// The encoding of the record fits a frame and a vector.
pub open spec fn record_fits(key: Seq<u8>, value: Seq<u8>) -> bool {
    16 + key.len() + value.len() <= u32::MAX && 16 + key.len() + value.len() <= isize::MAX
}

/// What was read so far, followed by what the rest of the log gives.
pub open spec fn read_on<T>(done: Seq<T>, rest: Result<Seq<T>, WalError>) -> Result<
    Seq<T>,
    WalError,
> {
    match rest {
        Ok(more) => Ok(done + more),
        Err(e) => Err(e),
    }
}

/// The payloads of the frames of `log`, in order.
pub open spec fn split_frames(log: Seq<u8>) -> Result<Seq<Seq<u8>>, WalError>
    decreases log.len(),
{
    if log.len() < 4 {
        Ok(Seq::empty())
    } else {
        let n = be_value(log.subrange(0, 4)) as int;
        if log.len() - 4 < n {
            Err(WalError::UnexpectedEof)
        } else {
            read_on(seq![log.subrange(4, 4 + n)], split_frames(log.skip(4 + n)))
        }
    }
}

/// The records of `log`, in order. The first frame that cannot be read
/// decides the error: frames after it are not looked at.
pub open spec fn parse_records(log: Seq<u8>) -> Result<Seq<Write>, WalError>
    decreases log.len(),
{
    if log.len() < 4 {
        Ok(Seq::empty())
    } else {
        let n = be_value(log.subrange(0, 4)) as int;
        if log.len() - 4 < n {
            Err(WalError::UnexpectedEof)
        } else {
            match pair_decoding(log.subrange(4, 4 + n)) {
                None => Err(WalError::Deserialize),
                Some(record) => read_on(seq![record], parse_records(log.skip(4 + n))),
            }
        }
    }
}

/// `log` is made of whole frames and nothing else.
pub open spec fn ends_at_boundary(log: Seq<u8>) -> bool
    decreases log.len(),
{
    if log.len() == 0 {
        true
    } else if log.len() < 4 {
        false
    } else {
        let n = be_value(log.subrange(0, 4)) as int;
        n <= log.len() - 4 && ends_at_boundary(log.skip(4 + n))
    }
}

/// The records as the contracts see them.
pub open spec fn records_view(records: Seq<KvPair>) -> Seq<Write> {
    records.map_values(|kv: KvPair| kv@)
}

/// The payloads as the contracts see them.
pub open spec fn payloads_view(payloads: Seq<Vec<u8>>) -> Seq<Seq<u8>> {
    payloads.map_values(|p: Vec<u8>| p@)
}

// ---------------------------------------------------------------------------
// Laws of the format
// ---------------------------------------------------------------------------

/// The frame of a payload that fits four bytes of length reads back as that
/// one payload, and is a whole frame.
pub proof fn lemma_frame_first(payload: Seq<u8>, rest: Seq<u8>)
    requires
        payload.len() <= u32::MAX,
    ensures
        frame(payload).len() == 4 + payload.len(),
        (frame(payload) + rest).len() >= 4,
        be_value((frame(payload) + rest).subrange(0, 4)) == payload.len(),
        (frame(payload) + rest).subrange(4, 4 + payload.len() as int) == payload,
        (frame(payload) + rest).skip(4 + payload.len() as int) == rest,
{
    lemma_pow256_values();
    lemma_be_roundtrip(payload.len(), 4);
    let all = frame(payload) + rest;
    assert(all.subrange(0, 4) =~= be_bytes(payload.len(), 4));
    assert(all.subrange(4, 4 + payload.len() as int) =~= payload);
    assert(all.skip(4 + payload.len() as int) =~= rest);
}

/// A record that fits reads back from its frame as itself.
pub proof fn lemma_record_roundtrip(key: Seq<u8>, value: Seq<u8>)
    requires
        record_fits(key, value),
    ensures
        parse_records(record_frame(key, value)) == Ok::<Seq<Write>, WalError>(seq![(key, value)]),
        ends_at_boundary(record_frame(key, value)),
        record_frame(key, value).len() == 20 + key.len() + value.len(),
{
    let payload = pair_encoding(key, value);
    lemma_pair_roundtrip(key, value, Seq::empty());
    assert(payload + Seq::<u8>::empty() =~= payload);
    lemma_frame_first(payload, Seq::empty());
    let log = record_frame(key, value);
    assert(log + Seq::<u8>::empty() =~= log);
    let rest = log.skip(4 + payload.len() as int);
    assert(rest.len() == 0);
    assert(parse_records(rest) == Ok::<Seq<Write>, WalError>(Seq::empty()));
    assert(seq![(key, value)] + Seq::<Write>::empty() =~= seq![(key, value)]);
    assert(ends_at_boundary(rest));
}

/// Reading a log of whole frames with more bytes after it is reading the
/// log, then reading the bytes after it.
pub proof fn lemma_parse_concat(log: Seq<u8>, tail: Seq<u8>)
    requires
        ends_at_boundary(log),
    ensures
        parse_records(log + tail) == (match parse_records(log) {
            Ok(records) => read_on(records, parse_records(tail)),
            Err(e) => Err(e),
        }),
        ends_at_boundary(tail) ==> ends_at_boundary(log + tail),
    decreases log.len(),
{
    if log.len() == 0 {
        assert(log + tail =~= tail);
        match parse_records(tail) {
            Ok(more) => {
                assert(Seq::<Write>::empty() + more =~= more);
            },
            Err(_) => {},
        }
    } else {
        let n = be_value(log.subrange(0, 4)) as int;
        let all = log + tail;
        assert(all.subrange(0, 4) =~= log.subrange(0, 4));
        assert(all.subrange(4, 4 + n) =~= log.subrange(4, 4 + n));
        assert(all.skip(4 + n) =~= log.skip(4 + n) + tail);
        lemma_parse_concat(log.skip(4 + n), tail);
        match pair_decoding(log.subrange(4, 4 + n)) {
            None => {},
            Some(record) => {
                match parse_records(log.skip(4 + n)) {
                    Ok(inner) => {
                        match parse_records(tail) {
                            Ok(more) => {
                                assert(seq![record] + (inner + more) =~= (seq![record] + inner)
                                    + more);
                            },
                            Err(_) => {},
                        }
                    },
                    Err(_) => {},
                }
            },
        }
    }
}

/// Appending the frame of a record to a log of whole frames adds that
/// record, and nothing else, to what the log reads as.
pub proof fn lemma_append_then_read(log: Seq<u8>, key: Seq<u8>, value: Seq<u8>)
    requires
        ends_at_boundary(log),
        parse_records(log) is Ok,
        record_fits(key, value),
    ensures
        parse_records(log + record_frame(key, value)) == Ok::<Seq<Write>, WalError>(
            parse_records(log)->Ok_0.push((key, value)),
        ),
        ends_at_boundary(log + record_frame(key, value)),
{
    lemma_record_roundtrip(key, value);
    lemma_parse_concat(log, record_frame(key, value));
    let records = parse_records(log)->Ok_0;
    assert(records + seq![(key, value)] =~= records.push((key, value)));
}

/// A log of whole frames followed by fewer than four bytes reads as the log
/// alone: a length that was cut short is dropped.
pub proof fn lemma_torn_length_is_dropped(log: Seq<u8>, tail: Seq<u8>)
    requires
        ends_at_boundary(log),
        tail.len() < 4,
    ensures
        parse_records(log + tail) == parse_records(log),
{
    lemma_parse_concat(log, tail);
    match parse_records(log) {
        Ok(records) => {
            assert(records + Seq::<Write>::empty() =~= records);
        },
        Err(_) => {},
    }
}

/// A readable log of whole frames followed by a length and less payload
/// than the length announces does not read: the torn record is an error.
pub proof fn lemma_torn_payload_is_an_error(log: Seq<u8>, tail: Seq<u8>)
    requires
        ends_at_boundary(log),
        parse_records(log) is Ok,
        tail.len() >= 4,
        tail.len() - 4 < be_value(tail.subrange(0, 4)),
    ensures
        parse_records(log + tail) == Err::<Seq<Write>, WalError>(WalError::UnexpectedEof),
{
    lemma_parse_concat(log, tail);
}

// ---------------------------------------------------------------------------
// Framing and reading
// ---------------------------------------------------------------------------

/// Puts the length in front of what the encoder returned. A payload gets
/// its frame if its length fits four bytes; an encoder's failure is passed
/// on as `Serialize`.
pub fn frame_payload(encoded: Result<Vec<u8>, Box<bincode::ErrorKind>>) -> (r: Result<
    Vec<u8>,
    WalError,
>)
    ensures
        match encoded {
            Ok(payload) => if payload@.len() <= u32::MAX {
                r matches Ok(out) && out@ == frame(payload@)
            } else {
                r == Err::<Vec<u8>, WalError>(WalError::RecordTooLarge)
            },
            Err(_) => r == Err::<Vec<u8>, WalError>(WalError::Serialize),
        },
{
    match encoded {
        Ok(payload) => {
            if payload.len() > 0xffff_ffff {
                return Err(WalError::RecordTooLarge);
            }
            let mut out: Vec<u8> = Vec::with_capacity(4);
            push_be_u32(&mut out, payload.len() as u32);
            let mut payload = payload;
            let ghost body = payload@;
            out.append(&mut payload);
            proof {
                assert(out@ =~= frame(body));
            }
            Ok(out)
        },
        Err(_) => Err(WalError::Serialize),
    }
}

/// Whether the encoding of the record fits a frame and a vector.
pub fn fits(key: &Vec<u8>, value: &Vec<u8>) -> (r: bool)
    ensures
        r == record_fits(key@, value@),
{
    let by_frame: usize = 0xffff_ffff - 16;
    let by_vector: usize = (isize::MAX as usize) - 16;
    let limit: usize = if by_vector < by_frame {
        by_vector
    } else {
        by_frame
    };
    key.len() <= limit && value.len() <= limit - key.len()
}

impl Wal {
    /// The handle of the log kept at `location`.
    pub fn new(location: String) -> (wal: Wal)
        ensures
            wal.spec_location() == location@,
    {
        Wal { location }
    }

    pub closed spec fn spec_location(&self) -> Seq<char> {
        self.location@
    }

    /// The place where the bytes of this log are kept.
    pub fn location(&self) -> (l: &String)
        ensures
            l@ == self.spec_location(),
    {
        &self.location
    }

    /// The bytes that appending `kv` adds to the log. The record is durable
    /// once they stand at the end of the log and have been flushed.
    ///
    /// A record that fits gets its frame. A record too large to be framed
    /// is refused.
    pub fn append(&self, kv: KvPair) -> (r: Result<Vec<u8>, WalError>)
        ensures
            record_fits(kv@.0, kv@.1) ==> (r matches Ok(out) && out@ == record_frame(
                kv@.0,
                kv@.1,
            )),
            !record_fits(kv@.0, kv@.1) ==> r == Err::<Vec<u8>, WalError>(WalError::RecordTooLarge),
    {
        if !fits(&kv.key, &kv.value) {
            return Err(WalError::RecordTooLarge);
        }
        let encoded = encode_pair(&kv.key, &kv.value);
        proof {
            lemma_pair_roundtrip(kv@.0, kv@.1, Seq::empty());
        }
        frame_payload(encoded)
    }

    /// The records that the bytes `contents` of a log hold, in order.
    pub fn read(&self, contents: &[u8]) -> (r: Result<Vec<KvPair>, WalError>)
        ensures
            match r {
                Ok(records) => parse_records(contents@) == Ok::<Seq<Write>, WalError>(
                    records_view(records@),
                ),
                Err(e) => parse_records(contents@) == Err::<Seq<Write>, WalError>(e),
            },
    {
        let mut records: Vec<KvPair> = Vec::new();
        let mut pos: usize = 0;
        proof {
            assert(contents@.skip(0) =~= contents@);
            assert(records_view(records@) =~= Seq::<Write>::empty());
            lemma_read_on_nothing(parse_records(contents@));
        }
        while contents.len() - pos >= 4
            invariant
                pos <= contents@.len(),
                parse_records(contents@) == read_on(
                    records_view(records@),
                    parse_records(contents@.skip(pos as int)),
                ),
            decreases contents@.len() - pos,
        {
            let n = read_be_u32(contents, pos) as usize;
            let ghost rest = contents@.skip(pos as int);
            proof {
                assert(rest.subrange(0, 4) =~= contents@.subrange(pos as int, pos + 4));
            }
            if contents.len() - pos - 4 < n {
                return Err(WalError::UnexpectedEof);
            }
            let payload = slice_subrange(contents, pos + 4, pos + 4 + n);
            proof {
                assert(rest.subrange(4, 4 + n) =~= payload@);
                assert(rest.skip(4 + n) =~= contents@.skip(pos + 4 + n));
            }
            match decode_pair(payload) {
                Ok(pair) => {
                    let ghost before = records_view(records@);
                    let kv = KvPair::new(pair.0, pair.1);
                    records.push(kv);
                    proof {
                        assert(records_view(records@) =~= before.push(kv@));
                        lemma_read_on_step(
                            before,
                            kv@,
                            parse_records(contents@.skip(pos + 4 + n)),
                        );
                    }
                },
                Err(_) => {
                    return Err(WalError::Deserialize);
                },
            }
            pos = pos + 4 + n;
        }
        proof {
            assert(records_view(records@) + Seq::<Write>::empty() =~= records_view(records@));
        }
        Ok(records)
    }

    /// The payloads of the frames that the bytes `contents` of a log hold,
    /// in order and undecoded.
    pub fn read_raw(&self, contents: &[u8]) -> (r: Result<Vec<Vec<u8>>, WalError>)
        ensures
            match r {
                Ok(payloads) => split_frames(contents@) == Ok::<Seq<Seq<u8>>, WalError>(
                    payloads_view(payloads@),
                ),
                Err(e) => split_frames(contents@) == Err::<Seq<Seq<u8>>, WalError>(e),
            },
    {
        let mut payloads: Vec<Vec<u8>> = Vec::new();
        let mut pos: usize = 0;
        proof {
            assert(contents@.skip(0) =~= contents@);
            assert(payloads_view(payloads@) =~= Seq::<Seq<u8>>::empty());
            lemma_read_on_nothing(split_frames(contents@));
        }
        while contents.len() - pos >= 4
            invariant
                pos <= contents@.len(),
                split_frames(contents@) == read_on(
                    payloads_view(payloads@),
                    split_frames(contents@.skip(pos as int)),
                ),
            decreases contents@.len() - pos,
        {
            let n = read_be_u32(contents, pos) as usize;
            let ghost rest = contents@.skip(pos as int);
            proof {
                assert(rest.subrange(0, 4) =~= contents@.subrange(pos as int, pos + 4));
            }
            if contents.len() - pos - 4 < n {
                return Err(WalError::UnexpectedEof);
            }
            let payload = copy_bytes(contents, pos + 4, pos + 4 + n);
            proof {
                assert(rest.subrange(4, 4 + n) =~= payload@);
                assert(rest.skip(4 + n) =~= contents@.skip(pos + 4 + n));
            }
            let ghost before = payloads_view(payloads@);
            let ghost body = payload@;
            payloads.push(payload);
            proof {
                assert(payloads_view(payloads@) =~= before.push(body));
                lemma_read_on_step(before, body, split_frames(contents@.skip(pos + 4 + n)));
            }
            pos = pos + 4 + n;
        }
        proof {
            assert(payloads_view(payloads@) + Seq::<Seq<u8>>::empty() =~= payloads_view(
                payloads@,
            ));
        }
        Ok(payloads)
    }
}

/// The bytes of `bytes` from `from` up to `to`, as a vector of their own.
pub fn copy_bytes(bytes: &[u8], from: usize, to: usize) -> (out: Vec<u8>)
    requires
        from <= to <= bytes@.len(),
    ensures
        out@ == bytes@.subrange(from as int, to as int),
{
    let mut out: Vec<u8> = Vec::with_capacity(to - from);
    let mut i: usize = from;
    while i < to
        invariant
            from <= i <= to,
            to <= bytes@.len(),
            out@ == bytes@.subrange(from as int, i as int),
        decreases to - i,
    {
        out.push(bytes[i]);
        proof {
            assert(out@ =~= bytes@.subrange(from as int, i + 1));
        }
        i += 1;
    }
    out
}

proof fn lemma_read_on_nothing<T>(rest: Result<Seq<T>, WalError>)
    ensures
        read_on(Seq::<T>::empty(), rest) == rest,
{
    match rest {
        Ok(more) => {
            assert(Seq::<T>::empty() + more =~= more);
        },
        Err(_) => {},
    }
}

proof fn lemma_read_on_step<T>(done: Seq<T>, item: T, rest: Result<Seq<T>, WalError>)
    ensures
        read_on(done, read_on(seq![item], rest)) == read_on(done.push(item), rest),
{
    match rest {
        Ok(more) => {
            assert(done + (seq![item] + more) =~= done.push(item) + more);
        },
        Err(_) => {},
    }
}

} // verus!
