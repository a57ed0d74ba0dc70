//! The transcript of a proof: bytes that the prover appends and the
//! verifier reads from the front, and whose hash stands in for the
//! verifier's random choices.

use crate::algebraic_hasher::AlgebraicHasher;
use crate::digest::{bytes_as_elements, bytes_as_elements_spec, Digest};
use vstd::bytes::{
    lemma_auto_spec_u64_to_from_le_bytes, spec_u64_from_le_bytes, spec_u64_to_le_bytes,
    u64_from_le_bytes, u64_to_le_bytes,
};
use vstd::slice::{slice_subrange, slice_to_vec};
use vstd::prelude::*;

verus! {

/// The bytes written so far, and how many of them have been read.
#[derive(Debug, Clone)]
pub struct ProofStream {
    pub transcript: Vec<u8>,
    pub read_index: usize,
}

/// `bytes` behind the eight bytes of their number.
pub open spec fn length_prepended_spec(bytes: Seq<u8>) -> Seq<u8> {
    spec_u64_to_le_bytes(bytes.len() as u64) + bytes
}

/// The `count` bytes of `transcript` from `at` on and the place behind
/// them, if there are that many.
pub open spec fn dequeue_spec(transcript: Seq<u8>, at: nat, count: nat) -> Option<(Seq<u8>, nat)> {
    if at + count <= transcript.len() {
        Some((transcript.subrange(at as int, (at + count) as int), at + count))
    } else {
        None
    }
}

/// The bytes whose number the eight bytes of `transcript` from `at` on
/// give, and the place behind them, if there are that many.
pub open spec fn dequeue_length_prepended_spec(transcript: Seq<u8>, at: nat) -> Option<
    (Seq<u8>, nat),
> {
    match dequeue_spec(transcript, at, 8) {
        Some((prefix, behind)) => dequeue_spec(
            transcript,
            behind,
            spec_u64_from_le_bytes(prefix) as nat,
        ),
        None => None,
    }
}

/// The digest of the first `count` bytes of `transcript`.
pub open spec fn fiat_shamir_spec<H: AlgebraicHasher>(transcript: Seq<u8>, count: nat) -> Digest {
    H::hash_spec(bytes_as_elements_spec(transcript.take(count as int)))
}

/// What was written behind its length is read back whole.
pub proof fn lemma_length_prepended_roundtrip(before: Seq<u8>, bytes: Seq<u8>, after: Seq<u8>)
    requires
        bytes.len() <= u64::MAX,
    ensures
        dequeue_length_prepended_spec(
            before + length_prepended_spec(bytes) + after,
            before.len(),
        ) == Some((bytes, before.len() + 8 + bytes.len())),
{
    lemma_auto_spec_u64_to_from_le_bytes();
    let whole = before + length_prepended_spec(bytes) + after;
    let at = before.len() as int;
    assert(whole.subrange(at, at + 8) =~= spec_u64_to_le_bytes(bytes.len() as u64));
    assert(whole.subrange(at + 8, at + 8 + bytes.len()) =~= bytes);
}

impl Default for ProofStream {
    /// An empty transcript.
    fn default() -> (res: Self)
        ensures
            res.transcript@ == Seq::<u8>::empty(),
            res.read_index == 0,
    {
        ProofStream { transcript: Vec::new(), read_index: 0 }
    }
}

impl ProofStream {
    /// An empty transcript.
    pub fn new() -> (res: Self)
        ensures
            res.transcript@ == Seq::<u8>::empty(),
            res.read_index == 0,
    {
        ProofStream { transcript: Vec::new(), read_index: 0 }
    }

    /// The number of bytes written so far.
    pub fn transcript_length(&self) -> (res: usize)
        ensures
            res == self.transcript@.len(),
    {
        self.transcript.len()
    }

    /// Appends `bytes`.
    pub fn enqueue(&mut self, bytes: &[u8])
        ensures
            final(self).transcript@ == old(self).transcript@ + bytes@,
            final(self).read_index == old(self).read_index,
    {
        self.transcript.extend_from_slice(bytes);
    }

    /// Appends the number of `bytes`, then `bytes`.
    pub fn enqueue_length_prepended(&mut self, bytes: &[u8])
        ensures
            final(self).transcript@ == old(self).transcript@ + length_prepended_spec(bytes@),
            final(self).read_index == old(self).read_index,
    {
        let prefix = u64_to_le_bytes(bytes.len() as u64);
        self.transcript.extend_from_slice(prefix.as_slice());
        self.transcript.extend_from_slice(bytes);
        assert(self.transcript@ =~= old(self).transcript@ + length_prepended_spec(bytes@));
    }

    /// Reads the next `byte_length` bytes. Where fewer are left, nothing is
    /// read.
    pub fn dequeue(&mut self, byte_length: usize) -> (res: Option<Vec<u8>>)
        ensures
            final(self).transcript == old(self).transcript,
            match dequeue_spec(
                old(self).transcript@,
                old(self).read_index as nat,
                byte_length as nat,
            ) {
                Some((bytes, behind)) => res is Some && res->0@ == bytes && final(self).read_index
                    == behind,
                None => res is None && final(self).read_index == old(self).read_index,
            },
    {
        let len = self.transcript.len();
        if self.read_index > len || byte_length > len - self.read_index {
            return None;
        }
        let end = self.read_index + byte_length;
        let bytes = slice_to_vec(slice_subrange(self.transcript.as_slice(), self.read_index, end));
        self.read_index = end;
        Some(bytes)
    }

    /// Reads the next eight bytes as a number, and then that many bytes.
    /// Where fewer are left, nothing is read.
    pub fn dequeue_length_prepended(&mut self) -> (res: Option<Vec<u8>>)
        ensures
            final(self).transcript == old(self).transcript,
            match dequeue_length_prepended_spec(
                old(self).transcript@,
                old(self).read_index as nat,
            ) {
                Some((bytes, behind)) => res is Some && res->0@ == bytes && final(self).read_index
                    == behind,
                None => res is None && final(self).read_index == old(self).read_index,
            },
    {
        let start = self.read_index;
        let prefix = match self.dequeue(8) {
            Some(prefix) => prefix,
            None => {
                return None;
            },
        };
        let count = u64_from_le_bytes(prefix.as_slice());
        let len = self.transcript.len();
        if count > len as u64 {
            self.read_index = start;
            return None;
        }
        match self.dequeue(count as usize) {
            Some(bytes) => Some(bytes),
            None => {
                self.read_index = start;
                None
            },
        }
    }

    /// The digest of all that was written: the prover's source of
    /// challenges.
    pub fn prover_fiat_shamir<H: AlgebraicHasher>(&self) -> (res: Digest)
        ensures
            res == fiat_shamir_spec::<H>(self.transcript@, self.transcript@.len()),
    {
        proof {
            assert(self.transcript@.take(self.transcript@.len() as int) =~= self.transcript@);
        }
        let elements = bytes_as_elements(&self.transcript);
        H::hash_slice(&elements)
    }

    /// The digest of all that was read: the verifier's source of
    /// challenges. Where the read index is behind the end, it counts as
    /// the end.
    pub fn verifier_fiat_shamir<H: AlgebraicHasher>(&self) -> (res: Digest)
        ensures
            res == fiat_shamir_spec::<H>(
                self.transcript@,
                if self.read_index <= self.transcript@.len() {
                    self.read_index as nat
                } else {
                    self.transcript@.len()
                },
            ),
    {
        let end = if self.read_index <= self.transcript.len() {
            self.read_index
        } else {
            self.transcript.len()
        };
        let read = slice_to_vec(slice_subrange(self.transcript.as_slice(), 0, end));
        proof {
            assert(self.transcript@.subrange(0, end as int) =~= self.transcript@.take(end as int));
        }
        let elements = bytes_as_elements(&read);
        H::hash_slice(&elements)
    }
}

} // verus!
