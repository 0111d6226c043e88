//! Chunks: a length, a type code, an opaque payload and a CRC-32 checksum.
use crate::bytes::{
    be_bytes, be_value, copy_range, lemma_be_bytes_of_value, lemma_be_value_of_bytes, u32_from_be,
    u32_to_be,
};
use crate::chunk_type::{all_letters, type_code_of, ChunkType};
use crate::external::{crc32, crc32_of, string_from_utf8};
use crate::Error;
use vstd::prelude::*;
use vstd::utf8::{decode_utf8, valid_utf8};

verus! {

/// What a chunk holds: its type bytes, its payload, and its checksum.
pub struct ChunkView {
    pub chunk_type: Seq<u8>,
    pub data: Seq<u8>,
    pub crc: u32,
}

/// A chunk as `Chunk::new` builds it: four letters of type, a payload whose
/// length fits the 32-bit length field, and the checksum of type and payload.
pub open spec fn chunk_wf(c: ChunkView) -> bool {
    &&& c.chunk_type.len() == 4
    &&& all_letters(c.chunk_type)
    &&& c.data.len() <= u32::MAX
    &&& c.crc == crc32_of(c.chunk_type + c.data)
}

/// The bytes of a chunk: length, type, payload and checksum, integers big-endian.
pub open spec fn encode_chunk(c: ChunkView) -> Seq<u8> {
    be_bytes(c.data.len() as u32) + c.chunk_type + c.data + be_bytes(c.crc)
}

/// The length field of `b` agrees with its size: twelve bytes of framing
/// around the payload.
pub open spec fn chunk_length_ok(b: Seq<u8>) -> bool {
    b.len() >= 12 && b.len() == be_value(b.subrange(0, 4)) as int + 12
}

/// The bytes that the checksum covers: type and payload.
pub open spec fn chunk_body(b: Seq<u8>) -> Seq<u8> {
    b.subrange(4, b.len() - 4)
}

/// Decoding the bytes `b` of one chunk, where `crc` is the checksum of its
/// type and payload.
pub open spec fn decode_chunk_with(b: Seq<u8>, crc: u32) -> Result<ChunkView, Error> {
    if !chunk_length_ok(b) {
        Err(Error::MalformedLength)
    } else {
        match type_code_of(b.subrange(4, 8)) {
            Err(e) => Err(Error::InvalidType(e)),
            Ok(t) => if be_value(b.subrange(b.len() - 4, b.len() as int)) != crc {
                Err(Error::ChecksumMismatch)
            } else {
                Ok(ChunkView { chunk_type: t, data: b.subrange(8, b.len() - 4), crc })
            },
        }
    }
}

/// Decoding the bytes `b` of one chunk.
pub open spec fn decode_chunk(b: Seq<u8>) -> Result<ChunkView, Error> {
    decode_chunk_with(b, crc32_of(chunk_body(b)))
}

/// The view of a decoding result.
pub open spec fn chunk_result_view(r: Result<Chunk, Error>) -> Result<ChunkView, Error> {
    match r {
        Ok(c) => Ok(c@),
        Err(e) => Err(e),
    }
}

/// `b` with bit `k` of byte `p` inverted.
pub open spec fn flip_bit(b: Seq<u8>, p: int, k: u8) -> Seq<u8> {
    b.update(p, b[p] ^ (1u8 << k))
}

/// Decoding the bytes of a chunk gives the same type, payload and checksum.
pub proof fn lemma_decode_encode(c: ChunkView)
    requires
        chunk_wf(c),
    ensures
        decode_chunk(encode_chunk(c)) == Ok::<ChunkView, Error>(c),
{
    let b = encode_chunk(c);
    let n = b.len() as int;
    let len = c.data.len() as u32;
    lemma_be_value_of_bytes(len);
    assert(b.subrange(0, 4) =~= be_bytes(len));
    assert(b.subrange(4, 8) =~= c.chunk_type);
    assert(chunk_body(b) =~= c.chunk_type + c.data);
    lemma_be_value_of_bytes(c.crc);
    assert(b.subrange(n - 4, n) =~= be_bytes(c.crc));
    assert(b.subrange(8, n - 4) =~= c.data);
}

/// A chunk decoded from bytes is one that `Chunk::new` could have built.
pub proof fn lemma_decoded_chunk_wf(b: Seq<u8>)
    requires
        decode_chunk(b) is Ok,
    ensures
        chunk_wf(decode_chunk(b)->Ok_0),
{
    let c = decode_chunk(b)->Ok_0;
    assert(c.chunk_type == b.subrange(4, 8));
    assert(chunk_body(b) =~= c.chunk_type + c.data);
}

/// Encoding a chunk that was decoded from `b` gives `b` back.
pub proof fn lemma_encode_decode(b: Seq<u8>, crc: u32)
    requires
        decode_chunk_with(b, crc) is Ok,
    ensures
        encode_chunk(decode_chunk_with(b, crc)->Ok_0) == b,
{
    let c = decode_chunk_with(b, crc)->Ok_0;
    let n = b.len() as int;
    lemma_be_bytes_of_value(b.subrange(0, 4));
    lemma_be_bytes_of_value(b.subrange(n - 4, n));
    assert(encode_chunk(c) =~= b);
}

/// Inverting any bit of the stored checksum makes decoding fail with a
/// checksum mismatch.
pub proof fn lemma_checksum_tamper(c: ChunkView, i: int, k: u8)
    requires
        chunk_wf(c),
        0 <= i < 4,
        k < 8,
    ensures
        decode_chunk(flip_bit(encode_chunk(c), encode_chunk(c).len() - 4 + i, k)) == Err::<
            ChunkView,
            Error,
        >(Error::ChecksumMismatch),
{
    let b = encode_chunk(c);
    let n = b.len() as int;
    let p = n - 4 + i;
    let t = flip_bit(b, p, k);
    lemma_decode_encode(c);
    assert(b.subrange(4, 8) =~= c.chunk_type);
    assert(chunk_body(b) =~= c.chunk_type + c.data);
    assert(t.len() == n);
    assert(t.subrange(4, 8) =~= b.subrange(4, 8));
    assert(chunk_body(t) =~= chunk_body(b));
    assert(t.subrange(0, 4) =~= b.subrange(0, 4));
    assert(chunk_length_ok(t));
    let old_tail = b.subrange(n - 4, n);
    let new_tail = t.subrange(n - 4, n);
    let x = b[p];
    assert(x ^ (1u8 << k) != x) by (bit_vector)
        requires
            k < 8,
    ;
    assert(new_tail[i] != old_tail[i]);
    lemma_be_value_of_bytes(c.crc);
    assert(old_tail =~= be_bytes(c.crc));
    lemma_be_bytes_of_value(new_tail);
    assert(be_value(new_tail) != c.crc) by {
        if be_value(new_tail) == c.crc {
            assert(new_tail == old_tail);
        }
    }
    assert(crc32_of(chunk_body(t)) == c.crc);
}

/// A typed, checksummed record of the container.
#[derive(Debug)]
pub struct Chunk {
    length: u32,
    chunk_type: ChunkType,
    chunk_data: Vec<u8>,
    crc: u32,
}

impl View for Chunk {
    type V = ChunkView;

    closed spec fn view(&self) -> ChunkView {
        ChunkView { chunk_type: self.chunk_type@, data: self.chunk_data@, crc: self.crc }
    }
}

impl Chunk {
    #[verifier::type_invariant]
    spec fn inv(&self) -> bool {
        self.length as int == self.chunk_data@.len()
    }

    /// A chunk of the given type and payload, with its checksum computed.
    pub fn new(chunk_type: ChunkType, chunk_data: Vec<u8>) -> (r: Chunk)
        requires
            chunk_data@.len() <= u32::MAX,
        ensures
            r@ == (ChunkView {
                chunk_type: chunk_type@,
                data: chunk_data@,
                crc: crc32_of(chunk_type@ + chunk_data@),
            }),
            chunk_wf(r@),
    {
        let t = chunk_type.bytes();
        let mut body: Vec<u8> = Vec::new();
        body.push(t[0]);
        body.push(t[1]);
        body.push(t[2]);
        body.push(t[3]);
        let mut i: usize = 0;
        while i < chunk_data.len()
            invariant
                0 <= i <= chunk_data@.len(),
                body@ == t@ + chunk_data@.subrange(0, i as int),
            decreases chunk_data@.len() - i,
        {
            body.push(chunk_data[i]);
            i = i + 1;
            assert(body@ =~= t@ + chunk_data@.subrange(0, i as int));
        }
        assert(chunk_data@.subrange(0, chunk_data@.len() as int) =~= chunk_data@);
        let crc = crc32(body.as_slice());
        Chunk { length: chunk_data.len() as u32, chunk_type, chunk_data, crc }
    }

    /// Decodes `b[start..end]` against the checksum `crc` of its type and payload.
    fn decode_range(b: &[u8], start: usize, end: usize, crc: u32) -> (r: Result<Chunk, Error>)
        requires
            start <= end <= b@.len(),
        ensures
            chunk_result_view(r) == decode_chunk_with(b@.subrange(start as int, end as int), crc),
    {
        let ghost s = b@.subrange(start as int, end as int);
        let n = end - start;
        if n < 12 {
            return Err(Error::MalformedLength);
        }
        let length = u32_from_be(b, start);
        assert(b@.subrange(start as int, start + 4) =~= s.subrange(0, 4));
        if n - 12 != length as usize {
            return Err(Error::MalformedLength);
        }
        let type_bytes: [u8; 4] = [b[start + 4], b[start + 5], b[start + 6], b[start + 7]];
        assert(type_bytes@ =~= s.subrange(4, 8));
        let chunk_type = match ChunkType::from_bytes(type_bytes) {
            Ok(t) => t,
            Err(e) => {
                return Err(Error::InvalidType(e));
            },
        };
        let stored = u32_from_be(b, end - 4);
        assert(b@.subrange(end - 4, end as int) =~= s.subrange(s.len() - 4, s.len() as int));
        if stored != crc {
            return Err(Error::ChecksumMismatch);
        }
        let chunk_data = copy_range(b, start + 8, end - 4);
        assert(chunk_data@ =~= s.subrange(8, s.len() - 4));
        Ok(Chunk { length, chunk_type, chunk_data, crc })
    }

    /// Decodes `b[start..end]`, computing the checksum of its type and payload.
    pub(crate) fn decode_at(b: &[u8], start: usize, end: usize) -> (r: Result<Chunk, Error>)
        requires
            start <= end <= b@.len(),
        ensures
            chunk_result_view(r) == decode_chunk(b@.subrange(start as int, end as int)),
    {
        let ghost s = b@.subrange(start as int, end as int);
        if end - start < 12 {
            return Err(Error::MalformedLength);
        }
        let body = copy_range(b, start + 4, end - 4);
        assert(body@ =~= chunk_body(s));
        let crc = crc32(body.as_slice());
        Chunk::decode_range(b, start, end, crc)
    }

    /// Decodes the bytes of exactly one chunk.
    pub fn decode(b: &[u8]) -> (r: Result<Chunk, Error>)
        ensures
            chunk_result_view(r) == decode_chunk(b@),
    {
        assert(b@.subrange(0, b@.len() as int) =~= b@);
        Chunk::decode_at(b, 0, b.len())
    }

    /// Decodes the bytes of exactly one chunk, given the checksum `crc` of
    /// its type and payload.
    pub fn decode_with_checksum(b: &[u8], crc: u32) -> (r: Result<Chunk, Error>)
        ensures
            chunk_result_view(r) == decode_chunk_with(b@, crc),
    {
        assert(b@.subrange(0, b@.len() as int) =~= b@);
        Chunk::decode_range(b, 0, b.len(), crc)
    }

    /// The payload length.
    pub fn length(&self) -> (r: usize)
        ensures
            r == self@.data.len(),
    {
        proof {
            use_type_invariant(self);
        }
        self.length as usize
    }

    /// The payload.
    pub fn data(&self) -> (r: &[u8])
        ensures
            r@ == self@.data,
    {
        self.chunk_data.as_slice()
    }

    /// The type code.
    pub fn chunk_type(&self) -> (r: &ChunkType)
        ensures
            r@ == self@.chunk_type,
    {
        &self.chunk_type
    }

    /// The checksum.
    pub fn crc(&self) -> (r: u32)
        ensures
            r == self@.crc,
    {
        self.crc
    }

    /// The payload read as UTF-8 text.
    pub fn data_as_string(&self) -> (r: Result<String, Error>)
        ensures
            r is Ok <==> valid_utf8(self@.data),
            r matches Ok(s) ==> s@ == decode_utf8(self@.data),
            r matches Err(e) ==> e == Error::InvalidUtf8,
    {
        let copy = copy_range(self.chunk_data.as_slice(), 0, self.chunk_data.len());
        assert(copy@ =~= self.chunk_data@);
        match string_from_utf8(copy) {
            Some(s) => Ok(s),
            None => Err(Error::InvalidUtf8),
        }
    }

    /// The bytes of the chunk: length, type, payload and checksum.
    pub fn as_bytes(&self) -> (r: Vec<u8>)
        ensures
            r@ == encode_chunk(self@),
    {
        proof {
            use_type_invariant(self);
        }
        let len_bytes = u32_to_be(self.length);
        let type_bytes = self.chunk_type.bytes();
        let crc_bytes = u32_to_be(self.crc);
        let mut r: Vec<u8> = Vec::new();
        let mut i: usize = 0;
        while i < 4
            invariant
                0 <= i <= 4,
                r@ == len_bytes@.subrange(0, i as int),
            decreases 4 - i,
        {
            r.push(len_bytes[i]);
            i = i + 1;
            assert(r@ =~= len_bytes@.subrange(0, i as int));
        }
        i = 0;
        while i < 4
            invariant
                0 <= i <= 4,
                r@ == len_bytes@ + type_bytes@.subrange(0, i as int),
            decreases 4 - i,
        {
            r.push(type_bytes[i]);
            i = i + 1;
            assert(r@ =~= len_bytes@ + type_bytes@.subrange(0, i as int));
        }
        i = 0;
        while i < self.chunk_data.len()
            invariant
                0 <= i <= self.chunk_data@.len(),
                r@ == len_bytes@ + type_bytes@ + self.chunk_data@.subrange(0, i as int),
            decreases self.chunk_data@.len() - i,
        {
            r.push(self.chunk_data[i]);
            i = i + 1;
            assert(r@ =~= len_bytes@ + type_bytes@ + self.chunk_data@.subrange(0, i as int));
        }
        i = 0;
        while i < 4
            invariant
                0 <= i <= 4,
                r@ == len_bytes@ + type_bytes@ + self.chunk_data@ + crc_bytes@.subrange(0, i as int),
            decreases 4 - i,
        {
            r.push(crc_bytes[i]);
            i = i + 1;
            assert(r@ =~= len_bytes@ + type_bytes@ + self.chunk_data@ + crc_bytes@.subrange(
                0,
                i as int,
            ));
        }
        assert(self.chunk_data@.subrange(0, self.chunk_data@.len() as int) =~= self.chunk_data@);
        assert(r@ =~= encode_chunk(self@));
        r
    }
}

} // verus!
