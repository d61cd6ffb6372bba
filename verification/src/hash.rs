//! Fiat-Shamir challenges: SHA-256 over length-prefixed encodings.
use crate::bignum::{big_from_bytes_be, big_to_bytes_be, be_bytes_value, nat_to_be_bytes, Nat};
use sha2::{Digest, Sha256};
use vstd::prelude::*;

verus! {

/// The SHA-256 digest of `data`, as `sha2` computes it.
pub uninterp spec fn sha256_digest(data: Seq<u8>) -> Seq<u8>;

/// `Sha256::digest`: the contract claims only that the result is the
/// SHA-256 digest of the input bytes, a function of those bytes alone.
#[verifier::external_body]
pub(crate) fn sha256(data: &[u8]) -> (r: [u8; 32])
    ensures
        r@ == sha256_digest(data@),
{
    let digest = Sha256::digest(data);
    let mut out = [0u8; 32];
    out.copy_from_slice(&digest);
    out
}

/// Concatenation of byte chunks.
pub open spec fn concat_chunks(chunks: Seq<Seq<u8>>) -> Seq<u8>
    decreases chunks.len(),
{
    if chunks.len() == 0 {
        Seq::empty()
    } else {
        concat_chunks(chunks.drop_last()) + chunks.last()
    }
}

/// The eight big-endian bytes of `v`.
pub open spec fn be_u64(v: u64) -> Seq<u8> {
    seq![
        (v >> 56u64) as u8,
        (v >> 48u64) as u8,
        (v >> 40u64) as u8,
        (v >> 32u64) as u8,
        (v >> 24u64) as u8,
        (v >> 16u64) as u8,
        (v >> 8u64) as u8,
        v as u8,
    ]
}

/// A number in a transcript: its byte length as eight big-endian bytes,
/// then its minimal big-endian bytes.
pub open spec fn encode_with_len(v: nat) -> Seq<u8> {
    be_u64(nat_to_be_bytes(v).len() as u64) + nat_to_be_bytes(v)
}

/// The transcript of a list of numbers: their encodings, in order.
pub open spec fn fs_transcript(values: Seq<nat>) -> Seq<u8>
    decreases values.len(),
{
    if values.len() == 0 {
        Seq::empty()
    } else {
        fs_transcript(values.drop_last()) + encode_with_len(values.last())
    }
}

/// The challenge of a list of numbers: the digest of their transcript, read
/// as a big-endian number.
pub open spec fn challenge_of(values: Seq<nat>) -> nat {
    be_bytes_value(sha256_digest(fs_transcript(values)))
}

/// Appends the eight big-endian bytes of `v`.
pub(crate) fn push_be_u64(bytes: &mut Vec<u8>, v: u64)
    ensures
        final(bytes)@ == old(bytes)@ + be_u64(v),
{
    bytes.push((v >> 56u64) as u8);
    bytes.push((v >> 48u64) as u8);
    bytes.push((v >> 40u64) as u8);
    bytes.push((v >> 32u64) as u8);
    bytes.push((v >> 24u64) as u8);
    bytes.push((v >> 16u64) as u8);
    bytes.push((v >> 8u64) as u8);
    bytes.push(v as u8);
    assert(final(bytes)@ =~= old(bytes)@ + be_u64(v));
}

/// Appends all of `src` to `bytes`.
pub(crate) fn push_all(bytes: &mut Vec<u8>, src: &[u8])
    ensures
        final(bytes)@ == old(bytes)@ + src@,
{
    let mut i: usize = 0;
    while i < src.len()
        invariant
            i <= src.len(),
            bytes@ == old(bytes)@ + src@.subrange(0, i as int),
        decreases src.len() - i,
    {
        bytes.push(src[i]);
        i = i + 1;
        assert(bytes@ =~= old(bytes)@ + src@.subrange(0, i as int));
    }
    assert(src@.subrange(0, src.len() as int) =~= src@);
}

/// The Fiat-Shamir challenge of byte chunks: the SHA-256 digest of their
/// concatenation (the chunks carry no domain separation of their own).
pub fn fiat_shamir_challenge(chunks: &[&[u8]]) -> (r: [u8; 32])
    ensures
        r@ == sha256_digest(concat_chunks(chunks@.map_values(|c: &[u8]| c@))),
{
    let mut data: Vec<u8> = Vec::new();
    let mut i: usize = 0;
    while i < chunks.len()
        invariant
            i <= chunks.len(),
            data@ == concat_chunks(chunks@.subrange(0, i as int).map_values(|c: &[u8]| c@)),
        decreases chunks.len() - i,
    {
        push_all(&mut data, chunks[i]);
        proof {
            let prev = chunks@.subrange(0, i as int).map_values(|c: &[u8]| c@);
            let next = chunks@.subrange(0, i + 1).map_values(|c: &[u8]| c@);
            assert(next.drop_last() =~= prev);
            assert(next.last() == chunks@[i as int]@);
        }
        i = i + 1;
    }
    assert(chunks@.subrange(0, chunks.len() as int) =~= chunks@);
    sha256(data.as_slice())
}

/// Appends a number to a transcript as an eight-byte big-endian length
/// followed by its minimal big-endian bytes.
pub(crate) fn append_biguint_with_len(transcript: &mut Vec<u8>, value: &Nat)
    ensures
        final(transcript)@ == old(transcript)@ + encode_with_len(value@),
{
    let bytes = big_to_bytes_be(value);
    let len: u64 = bytes.len() as u64;
    push_be_u64(transcript, len);
    push_all(transcript, bytes.as_slice());
    assert(final(transcript)@ =~= old(transcript)@ + encode_with_len(value@));
}

/// The transcript of a list of numbers.
pub(crate) fn transcript_of(values: &[&Nat]) -> (r: Vec<u8>)
    ensures
        r@ == fs_transcript(values@.map_values(|v: &Nat| v@)),
{
    let mut transcript: Vec<u8> = Vec::new();
    let mut i: usize = 0;
    while i < values.len()
        invariant
            i <= values.len(),
            transcript@ == fs_transcript(values@.subrange(0, i as int).map_values(|v: &Nat| v@)),
        decreases values.len() - i,
    {
        append_biguint_with_len(&mut transcript, values[i]);
        proof {
            let prev = values@.subrange(0, i as int).map_values(|v: &Nat| v@);
            let next = values@.subrange(0, i + 1).map_values(|v: &Nat| v@);
            assert(next.drop_last() =~= prev);
        }
        i = i + 1;
    }
    assert(values@.subrange(0, values.len() as int) =~= values@);
    transcript
}

/// The Fiat-Shamir challenge of a list of numbers: SHA-256 of their
/// length-prefixed encodings, read as a non-negative big-endian number.
pub fn fiat_shamir_challenge_biguints(values: &[&Nat]) -> (r: Nat)
    ensures
        r@ == challenge_of(values@.map_values(|v: &Nat| v@)),
{
    let transcript = transcript_of(values);
    let digest = sha256(transcript.as_slice());
    big_from_bytes_be(&digest)
}

/// The Fiat-Shamir challenge of an owned list of numbers.
pub(crate) fn challenge_of_vec(values: &Vec<Nat>) -> (r: Nat)
    ensures
        r@ == challenge_of(values@.map_values(|v: Nat| v@)),
{
    let mut transcript: Vec<u8> = Vec::new();
    let mut i: usize = 0;
    while i < values.len()
        invariant
            i <= values.len(),
            transcript@ == fs_transcript(values@.subrange(0, i as int).map_values(|v: Nat| v@)),
        decreases values.len() - i,
    {
        append_biguint_with_len(&mut transcript, &values[i]);
        proof {
            let prev = values@.subrange(0, i as int).map_values(|v: Nat| v@);
            let next = values@.subrange(0, i + 1).map_values(|v: Nat| v@);
            assert(next.drop_last() =~= prev);
        }
        i = i + 1;
    }
    assert(values@.subrange(0, values.len() as int) =~= values@);
    let digest = sha256(transcript.as_slice());
    big_from_bytes_be(&digest)
}

} // verus!
