//! The payload of a log record: a key and a value in bincode's encoding,
//! produced and read back by bincode itself.

use crate::endian::{le_bytes, le_value, lemma_le_roundtrip, lemma_pow256_values};
use vstd::prelude::*;

verus! {

/// `bincode::ErrorKind`: what bincode reports when it fails. It is passed
/// on unread.
#[verifier::external_type_specification]
#[verifier::external_body]
pub struct ExErrorKind(bincode::ErrorKind);

/// A byte string as bincode writes it: the length as eight little-endian
/// bytes, then the bytes themselves.
pub open spec fn bytes_encoding(b: Seq<u8>) -> Seq<u8> {
    le_bytes(b.len(), 8) + b
}

/// A key and a value as bincode writes them: the key, then the value.
pub open spec fn pair_encoding(key: Seq<u8>, value: Seq<u8>) -> Seq<u8> {
    bytes_encoding(key) + bytes_encoding(value)
}

/// The byte string at the front of `input` and what follows it, if `input`
/// holds eight bytes of length and as many bytes as they announce.
pub open spec fn bytes_decoding(input: Seq<u8>) -> Option<(Seq<u8>, Seq<u8>)> {
    if input.len() < 8 {
        None
    } else {
        let n = le_value(input.subrange(0, 8)) as int;
        if input.len() - 8 < n {
            None
        } else {
            Some((input.subrange(8, 8 + n), input.skip(8 + n)))
        }
    }
}

/// The key and the value at the front of `input`, if it holds both. Bytes
/// that follow the value are not looked at.
pub open spec fn pair_decoding(input: Seq<u8>) -> Option<(Seq<u8>, Seq<u8>)> {
    match bytes_decoding(input) {
        None => None,
        Some((key, rest)) => match bytes_decoding(rest) {
            None => None,
            Some((value, _)) => Some((key, value)),
        },
    }
}

/// A byte string shorter than 2^64 is read back from its encoding, whatever
/// follows the encoding.
pub proof fn lemma_bytes_roundtrip(b: Seq<u8>, rest: Seq<u8>)
    requires
        b.len() < 0x1_0000_0000_0000_0000,
    ensures
        bytes_encoding(b).len() == 8 + b.len(),
        bytes_decoding(bytes_encoding(b) + rest) == Some((b, rest)),
{
    lemma_pow256_values();
    lemma_le_roundtrip(b.len(), 8);
    let input = bytes_encoding(b) + rest;
    assert(input.subrange(0, 8) =~= le_bytes(b.len(), 8));
    assert(input.subrange(8, 8 + b.len() as int) =~= b);
    assert(input.skip(8 + b.len() as int) =~= rest);
}

/// A key and a value are read back from their encoding, whatever follows it.
pub proof fn lemma_pair_roundtrip(key: Seq<u8>, value: Seq<u8>, rest: Seq<u8>)
    requires
        key.len() < 0x1_0000_0000_0000_0000,
        value.len() < 0x1_0000_0000_0000_0000,
    ensures
        pair_encoding(key, value).len() == 16 + key.len() + value.len(),
        pair_decoding(pair_encoding(key, value) + rest) == Some((key, value)),
{
    lemma_bytes_roundtrip(key, bytes_encoding(value) + rest);
    lemma_bytes_roundtrip(value, rest);
    assert(pair_encoding(key, value) + rest =~= bytes_encoding(key) + (bytes_encoding(value)
        + rest));
}

/// Calls `bincode::serialize` on the pair `(key, value)`. It returns the
/// pair in bincode's fixed-width encoding: for each of the two byte strings
/// the length as a little-endian `u64`, then the bytes. It does not fail on
/// such a pair: it writes into a vector, under no size limit, and the length
/// of a byte string is always known. Inputs whose encoding would be longer
/// than a `Vec` can be are left out.
#[verifier::external_body]
pub(crate) fn encode_pair(key: &Vec<u8>, value: &Vec<u8>) -> (r: Result<
    Vec<u8>,
    Box<bincode::ErrorKind>,
>)
    requires
        16 + key@.len() + value@.len() <= isize::MAX,
    ensures
        r is Ok,
        r matches Ok(bytes) ==> bytes@ == pair_encoding(key@, value@),
{
    bincode::serialize(&(key, value))
}

/// Calls `bincode::deserialize` for a pair of byte strings. It succeeds
/// exactly on inputs that begin with the encoding of a pair, and returns
/// that pair; bytes after it are allowed.
#[verifier::external_body]
pub(crate) fn decode_pair(bytes: &[u8]) -> (r: Result<(Vec<u8>, Vec<u8>), Box<bincode::ErrorKind>>)
    ensures
        match r {
            Ok(pair) => pair_decoding(bytes@) == Some((pair.0@, pair.1@)),
            Err(_) => pair_decoding(bytes@) is None,
        },
{
    bincode::deserialize::<(Vec<u8>, Vec<u8>)>(bytes)
}

} // verus!
