use vstd::prelude::*;

use crate::bytes::{
    copy_range, push_bytes, push_u64_be_bytes, read_u64_be_bytes, spec_u64_from_be_bytes,
    spec_u64_to_be_bytes,
};
use crate::bytes::lemma_u64_be_bytes_round_trip;
use crate::cipher::{aes_dec, aes_enc, aes_decrypt_raw, aes_encrypt_raw};
use crate::error::Error;

verus! {

/// The number of raw key bytes carried by every chunk.
pub const KEY_LENGTH: usize = 16;

/// The number of bytes of the fixed serialized header: the chunk count and
/// the index, 8 bytes each, followed by the 16 key bytes.
pub const HEADER_LENGTH: usize = 32;

/// One fragment of a split input: its position among `total_chunks`
/// siblings, its own 16-byte key, stored in the clear, and its payload. At
/// rest the payload carries one layer of ciphertext per sibling; once the
/// cascade is fully reversed it carries the fragment's slice of the
/// original input.
#[derive(Debug, Clone, PartialEq, Eq)]
pub struct Chunk {
    pub total_chunks: u64,
    pub index: u64,
    pub key: Vec<u8>,
    pub data: Vec<u8>,
}

/// The serialized form of a chunk: count and index as 8 big-endian bytes
/// each, then the raw key bytes, then the payload as-is.
pub open spec fn spec_chunk_bytes(
    total_chunks: u64,
    index: u64,
    key: Seq<u8>,
    data: Seq<u8>,
) -> Seq<u8> {
    spec_u64_to_be_bytes(total_chunks) + spec_u64_to_be_bytes(index) + key + data
}

impl Chunk {
    /// Serializes the chunk into a flat buffer: `total_chunks` big-endian,
    /// `index` big-endian, the key bytes, and the payload, with no length
    /// prefix and no checksum.
    pub fn to_buf(&self) -> (r: Vec<u8>)
        ensures
            r@ == spec_chunk_bytes(self.total_chunks, self.index, self.key@, self.data@),
    {
        let mut out: Vec<u8> = Vec::new();
        push_u64_be_bytes(&mut out, self.total_chunks);
        push_u64_be_bytes(&mut out, self.index);
        push_bytes(&mut out, self.key.as_slice());
        push_bytes(&mut out, self.data.as_slice());
        proof {
            assert(out@ =~= spec_chunk_bytes(self.total_chunks, self.index, self.key@, self.data@));
        }
        out
    }

    /// Parses a serialized chunk. Fails exactly when the buffer is shorter
    /// than the 32-byte fixed header; everything after the header is the
    /// payload, which may be empty.
    pub fn from_buf(buf: &[u8]) -> (r: Result<Chunk, Error>)
        ensures
            r is Err <==> buf@.len() < HEADER_LENGTH,
            r is Err ==> r == Err::<Chunk, Error>(Error::ChunkParseError),
            r is Ok ==> r.unwrap().total_chunks == spec_u64_from_be_bytes(
                buf@.subrange(0, 8),
            ),
            r is Ok ==> r.unwrap().index == spec_u64_from_be_bytes(buf@.subrange(8, 16)),
            r is Ok ==> r.unwrap().key@ == buf@.subrange(16, 32),
            r is Ok ==> r.unwrap().data@ == buf@.subrange(32, buf@.len() as int),
    {
        if buf.len() < HEADER_LENGTH {
            return Err(Error::ChunkParseError);
        }
        let total_chunks = read_u64_be_bytes(buf, 0);
        let index = read_u64_be_bytes(buf, 8);
        let key = copy_range(buf, 16, 32);
        let data = copy_range(buf, 32, buf.len());
        Ok(Chunk { total_chunks, index, key, data })
    }

    /// Applies one cascade layer in the forward direction: replaces the
    /// payload with its encryption under `key`. The other fields are left
    /// untouched. An internal cipher failure leaves the chunk unchanged.
    pub fn encrypt(&mut self, key: &[u8]) -> (r: Result<(), Error>)
        requires
            key@.len() == KEY_LENGTH,
            old(self).data@.len() + 16 <= i32::MAX,
        ensures
            final(self).total_chunks == old(self).total_chunks,
            final(self).index == old(self).index,
            final(self).key == old(self).key,
            r is Ok ==> final(self).data@ == aes_enc(key@, old(self).data@),
            r is Ok ==> final(self).data@.len() == old(self).data@.len() - (old(
                self,
            ).data@.len() % 16) + 16,
            r is Err ==> r == Err::<(), Error>(Error::CipherFailure) && final(self).data == old(
                self,
            ).data,
    {
        match aes_encrypt_raw(key, self.data.as_slice()) {
            Some(out) => {
                self.data = out;
                Ok(())
            },
            None => Err(Error::CipherFailure),
        }
    }

    /// Applies one cascade layer in the reverse direction: replaces the
    /// payload with its decryption under `key`. The other fields are left
    /// untouched. On a payload that is an encryption under `key`, this is
    /// guaranteed to succeed and to restore the encrypted bytes exactly; on
    /// any other payload a cipher failure may be reported, leaving the
    /// chunk unchanged.
    pub fn decrypt(&mut self, key: &[u8]) -> (r: Result<(), Error>)
        requires
            key@.len() == KEY_LENGTH,
            old(self).data@.len() + 16 <= i32::MAX,
        ensures
            final(self).total_chunks == old(self).total_chunks,
            final(self).index == old(self).index,
            final(self).key == old(self).key,
            r is Ok ==> final(self).data@ == aes_dec(key@, old(self).data@),
            r is Ok ==> final(self).data@.len() <= old(self).data@.len(),
            forall|s: Seq<u8>|
                old(self).data@ == #[trigger] aes_enc(key@, s) ==> r is Ok && final(self).data@
                    == s,
            r is Err ==> r == Err::<(), Error>(Error::CipherFailure) && final(self).data == old(
                self,
            ).data,
    {
        match aes_decrypt_raw(key, self.data.as_slice()) {
            Some(out) => {
                self.data = out;
                Ok(())
            },
            None => Err(Error::CipherFailure),
        }
    }
}

/// Serializing a chunk and parsing the buffer back recovers every field
/// exactly: the header fields are read from their fixed positions and the
/// payload is the remainder of the buffer.
pub proof fn lemma_chunk_bytes_round_trip(total_chunks: u64, index: u64, key: Seq<u8>, data: Seq<u8>)
    requires
        key.len() == KEY_LENGTH,
    ensures
        spec_chunk_bytes(total_chunks, index, key, data).len() == 32 + data.len(),
        spec_u64_from_be_bytes(spec_chunk_bytes(total_chunks, index, key, data).subrange(0, 8))
            == total_chunks,
        spec_u64_from_be_bytes(spec_chunk_bytes(total_chunks, index, key, data).subrange(8, 16))
            == index,
        spec_chunk_bytes(total_chunks, index, key, data).subrange(16, 32) == key,
        spec_chunk_bytes(total_chunks, index, key, data).subrange(
            32,
            spec_chunk_bytes(total_chunks, index, key, data).len() as int,
        ) == data,
{
    let b = spec_chunk_bytes(total_chunks, index, key, data);
    assert(b.subrange(0, 8) =~= spec_u64_to_be_bytes(total_chunks));
    assert(b.subrange(8, 16) =~= spec_u64_to_be_bytes(index));
    assert(b.subrange(16, 32) =~= key);
    assert(b.subrange(32, b.len() as int) =~= data);
    lemma_u64_be_bytes_round_trip(total_chunks);
    lemma_u64_be_bytes_round_trip(index);
}

} // verus!
