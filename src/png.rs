//! The container: the PNG signature followed by a sequence of chunks.
use crate::bytes::{be_value, u32_from_be};
use crate::bytes::{be_bytes, lemma_be_value_of_bytes};
use crate::chunk::{
    chunk_body, chunk_wf, decode_chunk, encode_chunk, lemma_decode_encode, lemma_decoded_chunk_wf,
    lemma_encode_decode, Chunk, ChunkView,
};
use crate::external::crc32_of;
use crate::Error;
use vstd::prelude::*;
use vstd::utf8::encode_utf8;

verus! {

/// The eight bytes that open every PNG file.
pub open spec fn signature() -> Seq<u8> {
    seq![0x89u8, 0x50u8, 0x4eu8, 0x47u8, 0x0du8, 0x0au8, 0x1au8, 0x0au8]
}

/// Decoding a sequence of chunks that fills `b` exactly. Each chunk takes
/// its declared length plus twelve bytes; the first failure is the result.
pub open spec fn parse_chunks(b: Seq<u8>) -> Result<Seq<ChunkView>, Error>
    decreases b.len(),
{
    if b.len() == 0 {
        Ok(seq![])
    } else if b.len() < 4 || b.len() < be_value(b.subrange(0, 4)) as int + 12 {
        Err(Error::MalformedLength)
    } else {
        let end = be_value(b.subrange(0, 4)) as int + 12;
        match decode_chunk(b.subrange(0, end)) {
            Err(e) => Err(e),
            Ok(c) => match parse_chunks(b.subrange(end, b.len() as int)) {
                Err(e) => Err(e),
                Ok(rest) => Ok(seq![c] + rest),
            },
        }
    }
}

/// Decoding a whole file: the signature, then the chunks.
pub open spec fn parse_png(b: Seq<u8>) -> Result<Seq<ChunkView>, Error> {
    if b.len() < 8 || b.subrange(0, 8) != signature() {
        Err(Error::BadSignature)
    } else {
        parse_chunks(b.subrange(8, b.len() as int))
    }
}

/// The bytes of a sequence of chunks, one after the other.
pub open spec fn encode_chunks(s: Seq<ChunkView>) -> Seq<u8>
    decreases s.len(),
{
    if s.len() == 0 {
        seq![]
    } else {
        encode_chunk(s[0]) + encode_chunks(s.drop_first())
    }
}

/// The bytes of a whole file holding the chunks `s`.
pub open spec fn serialize_png(s: Seq<ChunkView>) -> Seq<u8> {
    signature() + encode_chunks(s)
}

/// `i` is the position of the first chunk of `s` whose type bytes are `t`.
pub open spec fn is_first_of_type(s: Seq<ChunkView>, t: Seq<u8>, i: int) -> bool {
    &&& 0 <= i < s.len()
    &&& s[i].chunk_type == t
    &&& forall|j: int| 0 <= j < i ==> (#[trigger] s[j]).chunk_type != t
}

/// Some chunk of `s` has the type bytes `t`.
pub open spec fn has_type(s: Seq<ChunkView>, t: Seq<u8>) -> bool {
    exists|i: int| 0 <= i < s.len() && (#[trigger] s[i]).chunk_type == t
}

/// The position of the first chunk of `s` whose type bytes are `t`.
pub open spec fn first_of_type(s: Seq<ChunkView>, t: Seq<u8>) -> int {
    choose|i: int| is_first_of_type(s, t, i)
}

/// The first chunk of `s` whose type bytes are `t`, if there is one.
pub open spec fn lookup(s: Seq<ChunkView>, t: Seq<u8>) -> Option<ChunkView> {
    if has_type(s, t) {
        Some(s[first_of_type(s, t)])
    } else {
        None
    }
}

/// When some chunk has the type, a first one does.
pub proof fn lemma_first_of_type(s: Seq<ChunkView>, t: Seq<u8>)
    requires
        has_type(s, t),
    ensures
        is_first_of_type(s, t, first_of_type(s, t)),
{
    let i = choose|i: int| 0 <= i < s.len() && (#[trigger] s[i]).chunk_type == t;
    lemma_first_below(s, t, i);
}

proof fn lemma_first_below(s: Seq<ChunkView>, t: Seq<u8>, i: int)
    requires
        0 <= i < s.len(),
        s[i].chunk_type == t,
    ensures
        exists|k: int| is_first_of_type(s, t, k),
    decreases i,
{
    if forall|j: int| 0 <= j < i ==> (#[trigger] s[j]).chunk_type != t {
        assert(is_first_of_type(s, t, i));
    } else {
        let j = choose|j: int| 0 <= j < i && (#[trigger] s[j]).chunk_type == t;
        lemma_first_below(s, t, j);
    }
}

/// A first position is unique.
proof fn lemma_first_unique(s: Seq<ChunkView>, t: Seq<u8>, i: int)
    requires
        is_first_of_type(s, t, i),
    ensures
        has_type(s, t),
        first_of_type(s, t) == i,
{
    assert(has_type(s, t));
    lemma_first_of_type(s, t);
    let k = first_of_type(s, t);
    if k < i {
        assert(s[k].chunk_type != t);
    } else if k > i {
        assert(s[i].chunk_type != t);
    }
}

/// Appending a chunk adds its bytes at the end.
pub proof fn lemma_encode_chunks_push(s: Seq<ChunkView>, c: ChunkView)
    ensures
        encode_chunks(s.push(c)) == encode_chunks(s) + encode_chunk(c),
    decreases s.len(),
{
    if s.len() == 0 {
        assert(s.push(c).drop_first() =~= Seq::<ChunkView>::empty());
        assert(encode_chunks(s.push(c).drop_first()) == Seq::<u8>::empty());
        assert(s.push(c)[0] == c);
        assert(encode_chunks(s.push(c)) =~= encode_chunk(c));
    } else {
        assert(s.push(c).drop_first() =~= s.drop_first().push(c));
        lemma_encode_chunks_push(s.drop_first(), c);
        assert(encode_chunks(s.push(c)) =~= encode_chunks(s) + encode_chunk(c));
    }
}

/// Encoding the chunks parsed from `b` gives `b` back.
pub proof fn lemma_encode_parsed_chunks(b: Seq<u8>)
    requires
        parse_chunks(b) is Ok,
    ensures
        encode_chunks(parse_chunks(b)->Ok_0) == b,
    decreases b.len(),
{
    if b.len() > 0 {
        let end = be_value(b.subrange(0, 4)) as int + 12;
        let head = b.subrange(0, end);
        let tail = b.subrange(end, b.len() as int);
        let c = decode_chunk(head)->Ok_0;
        lemma_encode_decode(head, crc32_of(chunk_body(head)));
        lemma_encode_parsed_chunks(tail);
        let rest = parse_chunks(tail)->Ok_0;
        assert((seq![c] + rest).drop_first() =~= rest);
        assert(b =~= head + tail);
    } else {
        assert(encode_chunks(parse_chunks(b)->Ok_0) =~= b);
    }
}

/// Serialising a container parsed from `b` gives exactly `b`.
pub proof fn lemma_parse_serialize(b: Seq<u8>)
    requires
        parse_png(b) is Ok,
    ensures
        serialize_png(parse_png(b)->Ok_0) == b,
{
    lemma_encode_parsed_chunks(b.subrange(8, b.len() as int));
    assert(b =~= b.subrange(0, 8) + b.subrange(8, b.len() as int));
}

/// Every chunk of `s` is one that `Chunk::new` could have built.
pub open spec fn all_wf(s: Seq<ChunkView>) -> bool {
    forall|i: int| 0 <= i < s.len() ==> chunk_wf(#[trigger] s[i])
}

/// The chunks parsed from bytes are all well formed.
pub proof fn lemma_parsed_chunks_wf(b: Seq<u8>)
    requires
        parse_chunks(b) is Ok,
    ensures
        all_wf(parse_chunks(b)->Ok_0),
    decreases b.len(),
{
    if b.len() > 0 {
        let end = be_value(b.subrange(0, 4)) as int + 12;
        let head = b.subrange(0, end);
        let tail = b.subrange(end, b.len() as int);
        lemma_decoded_chunk_wf(head);
        lemma_parsed_chunks_wf(tail);
        let c = decode_chunk(head)->Ok_0;
        let rest = parse_chunks(tail)->Ok_0;
        let s = seq![c] + rest;
        assert forall|i: int| 0 <= i < s.len() implies chunk_wf(#[trigger] s[i]) by {
            if i > 0 {
                assert(s[i] == rest[i - 1]);
            }
        }
    }
}

/// Parsing the bytes of well-formed chunks gives those chunks back.
pub proof fn lemma_parse_encoded_chunks(s: Seq<ChunkView>)
    requires
        all_wf(s),
    ensures
        parse_chunks(encode_chunks(s)) == Ok::<Seq<ChunkView>, Error>(s),
    decreases s.len(),
{
    let b = encode_chunks(s);
    if s.len() == 0 {
        assert(b =~= Seq::<u8>::empty());
        assert(s =~= Seq::<ChunkView>::empty());
    } else {
        let c = s[0];
        assert(chunk_wf(c));
        let e0 = encode_chunk(c);
        let rest = s.drop_first();
        assert forall|i: int| 0 <= i < rest.len() implies chunk_wf(#[trigger] rest[i]) by {
            assert(rest[i] == s[i + 1]);
        }
        lemma_parse_encoded_chunks(rest);
        let len = c.data.len() as u32;
        lemma_be_value_of_bytes(len);
        assert(b.subrange(0, 4) =~= be_bytes(len));
        let end = e0.len() as int;
        assert(end == be_value(b.subrange(0, 4)) as int + 12);
        assert(b == e0 + encode_chunks(rest));
        assert(b.len() >= end && end >= 12);
        assert(b.subrange(0, end) =~= e0);
        assert(b.subrange(end, b.len() as int) =~= encode_chunks(rest));
        lemma_decode_encode(c);
        assert(seq![c] + rest =~= s);
    }
}

/// Parsing a serialised container gives its chunks back.
pub proof fn lemma_serialize_parse(s: Seq<ChunkView>)
    requires
        all_wf(s),
    ensures
        parse_png(serialize_png(s)) == Ok::<Seq<ChunkView>, Error>(s),
{
    let b = serialize_png(s);
    assert(b.subrange(0, 8) =~= signature());
    assert(b.subrange(8, b.len() as int) =~= encode_chunks(s));
    lemma_parse_encoded_chunks(s);
}

/// After a chunk is appended, a lookup of its type finds the first earlier
/// chunk of that type, or else the appended chunk.
pub proof fn lemma_append_lookup(s: Seq<ChunkView>, c: ChunkView)
    ensures
        lookup(s.push(c), c.chunk_type) == (if has_type(s, c.chunk_type) {
            lookup(s, c.chunk_type)
        } else {
            Some(c)
        }),
        !has_type(s, c.chunk_type) ==> lookup(s.push(c), c.chunk_type) == Some(c),
{
    let t = c.chunk_type;
    let s2 = s.push(c);
    if has_type(s, t) {
        lemma_first_of_type(s, t);
        let i = first_of_type(s, t);
        assert forall|j: int| 0 <= j < i implies (#[trigger] s2[j]).chunk_type != t by {
            assert(s2[j] == s[j]);
        }
        assert(is_first_of_type(s2, t, i));
        lemma_first_unique(s2, t, i);
    } else {
        let n = s.len() as int;
        assert forall|j: int| 0 <= j < n implies (#[trigger] s2[j]).chunk_type != t by {
            assert(s2[j] == s[j]);
            if s[j].chunk_type == t {
                assert(has_type(s, t));
            }
        }
        assert(is_first_of_type(s2, t, n));
        lemma_first_unique(s2, t, n);
    }
}

/// Removing the first chunk of a type leaves, as the first of that type,
/// the next one that followed it, if any.
pub proof fn lemma_remove_lookup(s: Seq<ChunkView>, t: Seq<u8>)
    requires
        has_type(s, t),
    ensures
        lookup(s.remove(first_of_type(s, t)), t) == lookup(
            s.subrange(first_of_type(s, t) + 1, s.len() as int),
            t,
        ),
{
    lemma_first_of_type(s, t);
    let i = first_of_type(s, t);
    let s2 = s.remove(i);
    let rest = s.subrange(i + 1, s.len() as int);
    if has_type(rest, t) {
        lemma_first_of_type(rest, t);
        let k = first_of_type(rest, t);
        assert(s2[i + k] == rest[k]);
        assert forall|j: int| 0 <= j < i + k implies (#[trigger] s2[j]).chunk_type != t by {
            if j < i {
                assert(s2[j] == s[j]);
            } else {
                assert(s2[j] == rest[j - i]);
            }
        }
        assert(is_first_of_type(s2, t, i + k));
        lemma_first_unique(s2, t, i + k);
    } else {
        assert forall|j: int| 0 <= j < s2.len() implies (#[trigger] s2[j]).chunk_type != t by {
            if j < i {
                assert(s2[j] == s[j]);
            } else {
                assert(s2[j] == rest[j - i]);
                if rest[j - i].chunk_type == t {
                    assert(has_type(rest, t));
                }
            }
        }
        assert(!has_type(s2, t));
    }
}

/// A parsed container.
#[derive(Debug)]
pub struct Png {
    chunks: Vec<Chunk>,
}

impl View for Png {
    type V = Seq<ChunkView>;

    closed spec fn view(&self) -> Seq<ChunkView> {
        self.chunks@.map_values(|c: Chunk| c@)
    }
}

/// The view of a parsing result.
pub open spec fn png_result_view(r: Result<Png, Error>) -> Result<Seq<ChunkView>, Error> {
    match r {
        Ok(p) => Ok(p@),
        Err(e) => Err(e),
    }
}

/// The type bytes of `c` are those of `t`, compared byte by byte.
fn same_type(c: &Chunk, t: &[u8]) -> (r: bool)
    ensures
        r == (c@.chunk_type == t@),
{
    let b = c.chunk_type().bytes();
    if t.len() != 4 {
        assert(b@.len() != t@.len());
        return false;
    }
    let r = b[0] == t[0] && b[1] == t[1] && b[2] == t[2] && b[3] == t[3];
    assert(r ==> b@ =~= t@);
    r
}

impl Png {
    /// A container holding the given chunks, in order.
    pub fn from_chunks(chunks: Vec<Chunk>) -> (r: Png)
        ensures
            r@ == chunks@.map_values(|c: Chunk| c@),
    {
        Png { chunks }
    }

    /// Adds a chunk at the end.
    pub fn append_chunk(&mut self, chunk: Chunk)
        ensures
            final(self)@ == old(self)@.push(chunk@),
    {
        self.chunks.push(chunk);
        assert(self.chunks@.map_values(|c: Chunk| c@) =~= old(self)@.push(chunk@));
    }

    /// The first chunk whose type, as text, is `chunk_type`.
    pub fn chunk_by_type(&self, chunk_type: &str) -> (r: Option<&Chunk>)
        ensures
            match r {
                Some(c) => lookup(self@, encode_utf8(chunk_type@)) == Some(c@),
                None => lookup(self@, encode_utf8(chunk_type@)) == None::<ChunkView>,
            },
    {
        match self.position_of(chunk_type) {
            Some(i) => Some(&self.chunks[i]),
            None => None,
        }
    }

    /// Removes the first chunk whose type, as text, is `chunk_type`; later
    /// chunks of that type stay.
    pub fn remove_chunk(&mut self, chunk_type: &str) -> (r: Result<(), Error>)
        ensures
            match r {
                Ok(()) => has_type(old(self)@, encode_utf8(chunk_type@)) && final(self)@ == old(
                    self,
                )@.remove(first_of_type(old(self)@, encode_utf8(chunk_type@))),
                Err(e) => !has_type(old(self)@, encode_utf8(chunk_type@)) && e == Error::NotFound
                    && final(self)@ == old(self)@,
            },
    {
        match self.position_of(chunk_type) {
            Some(i) => {
                self.chunks.remove(i);
                assert(self.chunks@.map_values(|c: Chunk| c@) =~= old(self)@.remove(i as int));
                Ok(())
            },
            None => Err(Error::NotFound),
        }
    }

    /// The position of the first chunk whose type, as text, is `chunk_type`.
    fn position_of(&self, chunk_type: &str) -> (r: Option<usize>)
        ensures
            match r {
                Some(i) => is_first_of_type(self@, encode_utf8(chunk_type@), i as int)
                    && has_type(self@, encode_utf8(chunk_type@))
                    && first_of_type(self@, encode_utf8(chunk_type@)) == i
                    && i < self.chunks@.len(),
                None => !has_type(self@, encode_utf8(chunk_type@)),
            },
    {
        let t = chunk_type.as_bytes();
        let ghost s = self@;
        let mut i: usize = 0;
        while i < self.chunks.len()
            invariant
                0 <= i <= self.chunks@.len(),
                s == self@,
                s.len() == self.chunks@.len(),
                t@ == encode_utf8(chunk_type@),
                forall|j: int| 0 <= j < i ==> (#[trigger] s[j]).chunk_type != t@,
            decreases self.chunks@.len() - i,
        {
            if same_type(&self.chunks[i], t) {
                assert(s[i as int] == self.chunks@[i as int]@);
                proof {
                    lemma_first_unique(s, t@, i as int);
                }
                return Some(i);
            }
            assert(s[i as int] == self.chunks@[i as int]@);
            i = i + 1;
        }
        None
    }

    /// The chunks, in order.
    pub fn chunks(&self) -> (r: &[Chunk])
        ensures
            r@.map_values(|c: Chunk| c@) == self@,
    {
        self.chunks.as_slice()
    }

    /// The bytes of the whole file: the signature, then each chunk.
    pub fn as_bytes(&self) -> (r: Vec<u8>)
        ensures
            r@ == serialize_png(self@),
    {
        let header = Png::standard_header();
        let mut r: Vec<u8> = Vec::new();
        let mut i: usize = 0;
        while i < 8
            invariant
                0 <= i <= 8,
                header@ == signature(),
                r@ == header@.subrange(0, i as int),
            decreases 8 - i,
        {
            r.push(header[i]);
            i = i + 1;
            assert(r@ =~= header@.subrange(0, i as int));
        }
        assert(header@.subrange(0, 8) =~= header@);
        let ghost s = self@;
        let mut k: usize = 0;
        assert(s.take(0) =~= Seq::<ChunkView>::empty());
        while k < self.chunks.len()
            invariant
                0 <= k <= self.chunks@.len(),
                s == self@,
                s.len() == self.chunks@.len(),
                r@ == signature() + encode_chunks(s.take(k as int)),
            decreases self.chunks@.len() - k,
        {
            let mut b = self.chunks[k].as_bytes();
            assert(s[k as int] == self.chunks@[k as int]@);
            proof {
                lemma_encode_chunks_push(s.take(k as int), s[k as int]);
                assert(s.take(k as int).push(s[k as int]) =~= s.take(k + 1));
            }
            r.append(&mut b);
            k = k + 1;
            assert(r@ =~= signature() + encode_chunks(s.take(k as int)));
        }
        assert(s.take(k as int) =~= s);
        r
    }
    /// The eight signature bytes.
    pub fn standard_header() -> (r: [u8; 8])
        ensures
            r@ == signature(),
    {
        let r: [u8; 8] = [0x89, 0x50, 0x4e, 0x47, 0x0d, 0x0a, 0x1a, 0x0a];
        assert(r@ =~= signature());
        r
    }

    /// Parses a whole file: the signature, then chunks until the bytes end.
    /// Nothing is returned but the first error when any part is malformed.
    pub fn parse(bytes: &[u8]) -> (r: Result<Png, Error>)
        ensures
            png_result_view(r) == parse_png(bytes@),
    {
        let header = Png::standard_header();
        if bytes.len() < 8 {
            return Err(Error::BadSignature);
        }
        let mut i: usize = 0;
        while i < 8
            invariant
                0 <= i <= 8 <= bytes@.len(),
                header@ == signature(),
                forall|j: int| 0 <= j < i ==> bytes@[j] == header@[j],
            decreases 8 - i,
        {
            if bytes[i] != header[i] {
                assert(bytes@.subrange(0, 8)[i as int] != signature()[i as int]);
                return Err(Error::BadSignature);
            }
            i = i + 1;
        }
        assert(bytes@.subrange(0, 8) =~= signature());
        let ghost all = bytes@.subrange(8, bytes@.len() as int);
        let mut chunks: Vec<Chunk> = Vec::new();
        let mut pos: usize = 8;
        while pos < bytes.len()
            invariant
                8 <= pos <= bytes@.len(),
                all == bytes@.subrange(8, bytes@.len() as int),
                bytes@.subrange(0, 8) == signature(),
                parse_chunks(all) == match parse_chunks(bytes@.subrange(pos as int, bytes@.len() as int)) {
                    Ok(rest) => Ok(chunks@.map_values(|c: Chunk| c@) + rest),
                    Err(e) => Err::<Seq<ChunkView>, Error>(e),
                },
            decreases bytes@.len() - pos,
        {
            let ghost rem = bytes@.subrange(pos as int, bytes@.len() as int);
            assert(rem.len() == bytes.len() - pos);
            if bytes.len() - pos < 4 {
                assert(parse_chunks(rem) == Err::<Seq<ChunkView>, Error>(Error::MalformedLength));
                return Err(Error::MalformedLength);
            }
            let length = u32_from_be(bytes, pos);
            assert(bytes@.subrange(pos as int, pos + 4) =~= rem.subrange(0, 4));
            if bytes.len() - pos < 12 || bytes.len() - pos - 12 < length as usize {
                return Err(Error::MalformedLength);
            }
            let end = pos + 12 + length as usize;
            assert(bytes@.subrange(pos as int, end as int) =~= rem.subrange(0, end - pos));
            let chunk = match Chunk::decode_at(bytes, pos, end) {
                Ok(c) => c,
                Err(e) => {
                    return Err(e);
                },
            };
            assert(bytes@.subrange(end as int, bytes@.len() as int) =~= rem.subrange(
                end - pos,
                rem.len() as int,
            ));
            let ghost before = chunks@.map_values(|c: Chunk| c@);
            chunks.push(chunk);
            assert(chunks@.map_values(|c: Chunk| c@) =~= before.push(chunk@));
            proof {
                match parse_chunks(bytes@.subrange(end as int, bytes@.len() as int)) {
                    Ok(rest) => {
                        assert(before + (seq![chunk@] + rest) =~= before.push(chunk@) + rest);
                    },
                    Err(e) => {},
                }
            }
            pos = end;
        }
        assert(bytes@.subrange(pos as int, bytes@.len() as int) =~= Seq::<u8>::empty());
        assert(chunks@.map_values(|c: Chunk| c@) + Seq::<ChunkView>::empty() =~= chunks@.map_values(
            |c: Chunk| c@,
        ));
        Ok(Png { chunks })
    }
}

} // verus!
