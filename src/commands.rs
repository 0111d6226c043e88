//! The operations on whole files: hide a message, read it back, remove it,
//! list the chunks. Each takes the bytes of the file and gives the new bytes,
//! the text, or the listing.
use crate::args::{DecodeArgs, EncodeArgs, RemoveArgs};
use crate::bytes::copy_range;
use crate::chunk::{chunk_wf, Chunk, ChunkView};
use crate::chunk_type::{type_code_of_text, ChunkType};
use crate::external::crc32_of;
use crate::png::{
    first_of_type, has_type, lemma_append_lookup, lemma_first_of_type, lemma_parsed_chunks_wf,
    lemma_remove_lookup, lemma_serialize_parse, lookup, parse_png, serialize_png, Png,
};
use crate::Error;
use vstd::prelude::*;
use vstd::utf8::{decode_utf8, encode_utf8, valid_utf8};

verus! {

/// The file `file` with a new last chunk of type `chunk_type` whose payload
/// is the UTF-8 encoding of `message`.
pub open spec fn encode_file(file: Seq<u8>, chunk_type: Seq<char>, message: Seq<char>) -> Result<
    Seq<u8>,
    Error,
> {
    match parse_png(file) {
        Err(e) => Err(e),
        Ok(s) => match type_code_of_text(encode_utf8(chunk_type)) {
            Err(e) => Err(Error::InvalidType(e)),
            Ok(t) => {
                let data = encode_utf8(message);
                Ok(serialize_png(s.push(ChunkView { chunk_type: t, data, crc: crc32_of(t + data) })))
            },
        },
    }
}

/// The text in the first chunk of type `chunk_type` of the file `file`.
pub open spec fn decode_file(file: Seq<u8>, chunk_type: Seq<char>) -> Result<Seq<char>, Error> {
    match parse_png(file) {
        Err(e) => Err(e),
        Ok(s) => chunk_text(lookup(s, encode_utf8(chunk_type))),
    }
}

/// The text of a chunk found by a lookup.
pub open spec fn chunk_text(found: Option<ChunkView>) -> Result<Seq<char>, Error> {
    match found {
        None => Err(Error::NotFound),
        Some(c) => if valid_utf8(c.data) {
            Ok(decode_utf8(c.data))
        } else {
            Err(Error::InvalidUtf8)
        },
    }
}

/// After a message is hidden under a type that the file did not hold yet,
/// reading that type back gives the message.
pub proof fn lemma_encode_then_decode(file: Seq<u8>, chunk_type: Seq<char>, message: Seq<char>)
    requires
        encode_file(file, chunk_type, message) is Ok,
        encode_utf8(message).len() <= u32::MAX,
    ensures
        !has_type(parse_png(file)->Ok_0, encode_utf8(chunk_type)) ==> decode_file(
            encode_file(file, chunk_type, message)->Ok_0,
            chunk_type,
        ) == Ok::<Seq<char>, Error>(message),
{
    broadcast use vstd::utf8::encode_utf8_valid_utf8, vstd::utf8::encode_utf8_decode_utf8;

    let s = parse_png(file)->Ok_0;
    let t = encode_utf8(chunk_type);
    lemma_parsed_chunks_wf(file.subrange(8, file.len() as int));
    let data = encode_utf8(message);
    let c = ChunkView { chunk_type: t, data, crc: crc32_of(t + data) };
    assert(chunk_wf(c));
    let s2 = s.push(c);
    assert forall|i: int| 0 <= i < s2.len() implies chunk_wf(#[trigger] s2[i]) by {
        if i < s.len() {
            assert(s2[i] == s[i]);
        }
    }
    lemma_serialize_parse(s2);
    lemma_append_lookup(s, c);
}

/// After the first chunk of a type is removed, reading that type gives the
/// text of the next chunk of that type that followed it, if any.
pub proof fn lemma_remove_then_decode(file: Seq<u8>, chunk_type: Seq<char>)
    requires
        remove_file(file, chunk_type) is Ok,
    ensures
        decode_file(remove_file(file, chunk_type)->Ok_0, chunk_type) == chunk_text(
            lookup(
                (parse_png(file)->Ok_0).subrange(
                    first_of_type(parse_png(file)->Ok_0, encode_utf8(chunk_type)) + 1,
                    (parse_png(file)->Ok_0).len() as int,
                ),
                encode_utf8(chunk_type),
            ),
        ),
{
    let s = parse_png(file)->Ok_0;
    let t = encode_utf8(chunk_type);
    lemma_parsed_chunks_wf(file.subrange(8, file.len() as int));
    lemma_first_of_type(s, t);
    let i = first_of_type(s, t);
    let s2 = s.remove(i);
    assert forall|j: int| 0 <= j < s2.len() implies chunk_wf(#[trigger] s2[j]) by {
        if j < i {
            assert(s2[j] == s[j]);
        } else {
            assert(s2[j] == s[j + 1]);
        }
    }
    lemma_serialize_parse(s2);
    lemma_remove_lookup(s, t);
}

/// The file `file` without its first chunk of type `chunk_type`.
pub open spec fn remove_file(file: Seq<u8>, chunk_type: Seq<char>) -> Result<Seq<u8>, Error> {
    match parse_png(file) {
        Err(e) => Err(e),
        Ok(s) => {
            let t = encode_utf8(chunk_type);
            if has_type(s, t) {
                Ok(serialize_png(s.remove(first_of_type(s, t))))
            } else {
                Err(Error::NotFound)
            }
        },
    }
}

pub open spec fn bytes_result_view(r: Result<Vec<u8>, Error>) -> Result<Seq<u8>, Error> {
    match r {
        Ok(v) => Ok(v@),
        Err(e) => Err(e),
    }
}

pub open spec fn text_result_view(r: Result<String, Error>) -> Result<Seq<char>, Error> {
    match r {
        Ok(s) => Ok(s@),
        Err(e) => Err(e),
    }
}

/// Hides `args.message` in a new chunk of type `args.chunk_type` at the end
/// of the file, and gives the bytes of the new file.
pub fn encode(file: &[u8], args: &EncodeArgs) -> (r: Result<Vec<u8>, Error>)
    requires
        encode_utf8(args.message@).len() <= u32::MAX,
    ensures
        bytes_result_view(r) == encode_file(file@, args.chunk_type@, args.message@),
{
    let mut png = match Png::parse(file) {
        Ok(p) => p,
        Err(e) => {
            return Err(e);
        },
    };
    let chunk_type = match ChunkType::from_text(args.chunk_type.as_str()) {
        Ok(t) => t,
        Err(e) => {
            return Err(Error::InvalidType(e));
        },
    };
    let message = args.message.as_str().as_bytes();
    let data = copy_range(message, 0, message.len());
    assert(data@ =~= encode_utf8(args.message@));
    png.append_chunk(Chunk::new(chunk_type, data));
    Ok(png.as_bytes())
}

/// The text of the first chunk of type `args.chunk_type` in the file.
pub fn decode(file: &[u8], args: &DecodeArgs) -> (r: Result<String, Error>)
    ensures
        text_result_view(r) == decode_file(file@, args.chunk_type@),
{
    let png = match Png::parse(file) {
        Ok(p) => p,
        Err(e) => {
            return Err(e);
        },
    };
    match png.chunk_by_type(args.chunk_type.as_str()) {
        Some(chunk) => chunk.data_as_string(),
        None => Err(Error::NotFound),
    }
}

/// Removes the first chunk of type `args.chunk_type` from the file, and
/// gives the bytes of the new file.
pub fn remove(file: &[u8], args: &RemoveArgs) -> (r: Result<Vec<u8>, Error>)
    ensures
        bytes_result_view(r) == remove_file(file@, args.chunk_type@),
{
    let mut png = match Png::parse(file) {
        Ok(p) => p,
        Err(e) => {
            return Err(e);
        },
    };
    match png.remove_chunk(args.chunk_type.as_str()) {
        Ok(()) => Ok(png.as_bytes()),
        Err(e) => Err(e),
    }
}

/// What a listing shows of one chunk.
#[derive(Debug, PartialEq, Eq)]
pub struct ChunkSummary {
    pub chunk_type: String,
    pub data_len: usize,
    pub crc: u32,
}

/// `m` summarises the chunk `c`.
pub open spec fn summarises(m: ChunkSummary, c: ChunkView) -> bool {
    &&& encode_utf8(m.chunk_type@) == c.chunk_type
    &&& m.data_len == c.data.len()
    &&& m.crc == c.crc
}

/// A summary of each chunk of the file, in order.
pub fn list(file: &[u8]) -> (r: Result<Vec<ChunkSummary>, Error>)
    ensures
        match r {
            Ok(v) => parse_png(file@) is Ok && v@.len() == (parse_png(file@)->Ok_0).len()
                && forall|i: int|
                0 <= i < v@.len() ==> summarises(#[trigger] v@[i], (parse_png(file@)->Ok_0)[i]),
            Err(e) => parse_png(file@) == Err::<Seq<ChunkView>, Error>(e),
        },
{
    let png = match Png::parse(file) {
        Ok(p) => p,
        Err(e) => {
            return Err(e);
        },
    };
    let chunks = png.chunks();
    let ghost s = png@;
    assert(chunks@.map_values(|c: Chunk| c@) == s);
    let mut out: Vec<ChunkSummary> = Vec::new();
    let mut i: usize = 0;
    while i < chunks.len()
        invariant
            0 <= i <= chunks@.len(),
            chunks@.map_values(|c: Chunk| c@) == s,
            out@.len() == i,
            forall|j: int| 0 <= j < i ==> summarises(#[trigger] out@[j], s[j]),
        decreases chunks@.len() - i,
    {
        let c = &chunks[i];
        assert(s[i as int] == c@);
        out.push(
            ChunkSummary { chunk_type: c.chunk_type().to_string(), data_len: c.length(), crc: c.crc() },
        );
        i = i + 1;
    }
    Ok(out)
}

} // verus!
