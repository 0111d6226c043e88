//! Chunk type codes: four ASCII letters, with the naming conventions carried
//! by bit 5 of each byte.
use crate::external::string_from_utf8;
use vstd::prelude::*;
use vstd::utf8::{encode_utf8, encode_utf8_decode_utf8, is_leading_byte_width_1, valid_utf8};

verus! {

/// An ASCII letter, `A`-`Z` or `a`-`z`.
pub open spec fn is_letter(b: u8) -> bool {
    (0x41 <= b <= 0x5a) || (0x61 <= b <= 0x7a)
}

/// Every byte of `s` is a letter.
pub open spec fn all_letters(s: Seq<u8>) -> bool {
    forall|i: int| 0 <= i < s.len() ==> is_letter(#[trigger] s[i])
}

/// `i` is the position of the first byte of `s` that is not a letter.
pub open spec fn is_first_non_letter(s: Seq<u8>, i: int) -> bool {
    &&& 0 <= i < s.len()
    &&& !is_letter(s[i])
    &&& forall|j: int| 0 <= j < i ==> is_letter(#[trigger] s[j])
}

/// What building a type code from the bytes `s` gives: the bytes themselves
/// when all are letters, else the first byte that is not one.
pub open spec fn type_code_of(s: Seq<u8>) -> Result<Seq<u8>, ChunkTypeError> {
    if all_letters(s) {
        Ok(s)
    } else {
        Err(ChunkTypeError::InvalidByte(s[choose|i: int| is_first_non_letter(s, i)]))
    }
}

/// What building a type code from text whose UTF-8 encoding is `s` gives.
pub open spec fn type_code_of_text(s: Seq<u8>) -> Result<Seq<u8>, ChunkTypeError> {
    if s.len() != 4 {
        Err(ChunkTypeError::InvalidLength)
    } else {
        type_code_of(s)
    }
}

/// Bit 5 (`0x20`) of `b` is clear.
pub open spec fn bit5_clear(b: u8) -> bool {
    b & 0x20 == 0
}

/// Bytes that hold a non-letter are refused, both as bytes and as text,
/// and the byte reported is a non-letter among them.
pub proof fn lemma_non_letter_refused(s: Seq<u8>, i: int)
    requires
        0 <= i < s.len(),
        !is_letter(s[i]),
    ensures
        type_code_of(s) is Err,
        type_code_of_text(s) is Err,
        exists|j: int|
            0 <= j < s.len() && !is_letter(s[j]) && type_code_of(s) == Err::<Seq<u8>, ChunkTypeError>(
                ChunkTypeError::InvalidByte(#[trigger] s[j]),
            ),
{
    lemma_first_non_letter_exists(s, i);
    let k = choose|k: int| is_first_non_letter(s, k);
    assert(0 <= k < s.len() && !is_letter(s[k]));
}

proof fn lemma_first_non_letter_exists(s: Seq<u8>, i: int)
    requires
        0 <= i < s.len(),
        !is_letter(s[i]),
    ensures
        exists|k: int| is_first_non_letter(s, k),
    decreases i,
{
    if forall|j: int| 0 <= j < i ==> is_letter(#[trigger] s[j]) {
        assert(is_first_non_letter(s, i));
    } else {
        let j = choose|j: int| 0 <= j < i && !is_letter(#[trigger] s[j]);
        lemma_first_non_letter_exists(s, j);
    }
}

/// Bytes below `0x80` are valid UTF-8, one character each.
pub proof fn lemma_ascii_valid_utf8(b: Seq<u8>)
    requires
        forall|i: int| 0 <= i < b.len() ==> #[trigger] b[i] <= 0x7f,
    ensures
        valid_utf8(b),
    decreases b.len(),
{
    if b.len() > 0 {
        let b0 = b[0];
        assert(is_leading_byte_width_1(b0));
        assert(b0 & 0x7f <= 0x7f) by (bit_vector);
        let rest = b.subrange(1, b.len() as int);
        assert forall|i: int| 0 <= i < rest.len() implies #[trigger] rest[i] <= 0x7f by {
            assert(rest[i] == b[i + 1]);
        }
        lemma_ascii_valid_utf8(rest);
    }
}

/// Text made of four ASCII letters is accepted as a type code, and it is
/// the only text whose encoding gives those four bytes.
pub proof fn lemma_text_round_trip(s: Seq<char>)
    requires
        s.len() == 4,
        forall|i: int|
            0 <= i < 4 ==> ('A' <= #[trigger] s[i] <= 'Z') || ('a' <= s[i] <= 'z'),
    ensures
        type_code_of_text(encode_utf8(s)) == Ok::<Seq<u8>, ChunkTypeError>(encode_utf8(s)),
        forall|r: Seq<char>| encode_utf8(r) == encode_utf8(s) ==> r == s,
{
    broadcast use vstd::utf8::is_ascii_chars_encode_utf8, encode_utf8_decode_utf8;

    assert(vstd::utf8::is_ascii_chars(s));
    let e = encode_utf8(s);
    assert forall|i: int| 0 <= i < 4 implies is_letter(#[trigger] e[i]) by {
        assert(s[i] as u8 == e[i]);
    }
    assert forall|r: Seq<char>| encode_utf8(r) == encode_utf8(s) implies r == s by {
        encode_utf8_decode_utf8(r);
        encode_utf8_decode_utf8(s);
    }
}

/// Why a chunk type code was refused.
#[derive(Debug, PartialEq, Eq, Clone, Copy)]
pub enum ChunkTypeError {
    /// The text is not four bytes long.
    InvalidLength,
    /// This byte is not an ASCII letter.
    InvalidByte(u8),
}

/// A chunk type code: four ASCII letters whose bit 5 carries the naming
/// conventions of the format.
#[derive(Debug, PartialEq, Eq, Clone, Copy)]
pub struct ChunkType {
    bytes: [u8; 4],
}

impl View for ChunkType {
    type V = Seq<u8>;

    closed spec fn view(&self) -> Seq<u8> {
        self.bytes@
    }
}

impl ChunkType {
    #[verifier::type_invariant]
    spec fn inv(&self) -> bool {
        all_letters(self.bytes@)
    }

    /// Builds a type code from four bytes, refusing the first that is not a letter.
    pub fn from_bytes(bytes: [u8; 4]) -> (r: Result<ChunkType, ChunkTypeError>)
        ensures
            match r {
                Ok(t) => type_code_of(bytes@) == Ok::<Seq<u8>, ChunkTypeError>(t@),
                Err(e) => type_code_of(bytes@) == Err::<Seq<u8>, ChunkTypeError>(e),
            },
    {
        let mut i: usize = 0;
        while i < 4
            invariant
                0 <= i <= 4,
                forall|j: int| 0 <= j < i ==> is_letter(#[trigger] bytes@[j]),
            decreases 4 - i,
        {
            let b = bytes[i];
            if !((b >= 0x41 && b <= 0x5a) || (b >= 0x61 && b <= 0x7a)) {
                assert(is_first_non_letter(bytes@, i as int));
                assert(!all_letters(bytes@));
                let ghost k = choose|k: int| is_first_non_letter(bytes@, k);
                assert(k == i as int) by {
                    if k < i {
                        assert(is_letter(bytes@[k]));
                    } else if k > i {
                        assert(is_letter(bytes@[i as int]));
                    }
                }
                return Err(ChunkTypeError::InvalidByte(b));
            }
            i = i + 1;
        }
        Ok(ChunkType { bytes })
    }

    /// Builds a type code from text of exactly four bytes, all letters.
    pub fn from_text(s: &str) -> (r: Result<ChunkType, ChunkTypeError>)
        ensures
            match r {
                Ok(t) => type_code_of_text(encode_utf8(s@)) == Ok::<Seq<u8>, ChunkTypeError>(t@),
                Err(e) => type_code_of_text(encode_utf8(s@)) == Err::<Seq<u8>, ChunkTypeError>(e),
            },
    {
        let b = s.as_bytes();
        if b.len() != 4 {
            return Err(ChunkTypeError::InvalidLength);
        }
        let arr: [u8; 4] = [b[0], b[1], b[2], b[3]];
        assert(arr@ =~= b@);
        ChunkType::from_bytes(arr)
    }

    /// The type code as text: the string whose UTF-8 encoding is its four bytes.
    pub fn to_string(&self) -> (r: String)
        ensures
            encode_utf8(r@) == self@,
    {
        proof {
            use_type_invariant(self);
        }
        let mut v: Vec<u8> = Vec::new();
        v.push(self.bytes[0]);
        v.push(self.bytes[1]);
        v.push(self.bytes[2]);
        v.push(self.bytes[3]);
        assert(v@ =~= self.bytes@);
        proof {
            assert forall|i: int| 0 <= i < v@.len() implies #[trigger] v@[i] <= 0x7f by {
                assert(is_letter(self.bytes@[i]));
            }
            lemma_ascii_valid_utf8(v@);
            vstd::utf8::decode_utf8_encode_utf8(v@);
        }
        let r = string_from_utf8(v);
        match r {
            Some(text) => text,
            None => String::new(),
        }
    }

    /// The four raw bytes.
    pub fn bytes(&self) -> (r: [u8; 4])
        ensures
            r@ == self@,
            all_letters(r@),
    {
        proof {
            use_type_invariant(self);
        }
        self.bytes
    }

    /// Bit 5 of the first byte is clear.
    pub fn is_critical(&self) -> (r: bool)
        ensures
            r == bit5_clear(self@[0]),
    {
        self.bytes[0] & 0x20 == 0
    }

    /// Bit 5 of the second byte is clear.
    pub fn is_public(&self) -> (r: bool)
        ensures
            r == bit5_clear(self@[1]),
    {
        self.bytes[1] & 0x20 == 0
    }

    /// Bit 5 of the third byte is clear.
    pub fn is_reserved_bit_valid(&self) -> (r: bool)
        ensures
            r == bit5_clear(self@[2]),
    {
        self.bytes[2] & 0x20 == 0
    }

    /// Bit 5 of the fourth byte is set.
    pub fn is_safe_to_copy(&self) -> (r: bool)
        ensures
            r == !bit5_clear(self@[3]),
    {
        self.bytes[3] & 0x20 != 0
    }

    /// A type code is valid when its reserved bit is clear; the bytes are
    /// letters already.
    pub fn is_valid(&self) -> (r: bool)
        ensures
            r == bit5_clear(self@[2]),
    {
        self.bytes[2] & 0x20 == 0
    }
}

impl core::convert::TryFrom<[u8; 4]> for ChunkType {
    type Error = ChunkTypeError;

    fn try_from(value: [u8; 4]) -> (r: Result<ChunkType, ChunkTypeError>)
        ensures
            match r {
                Ok(t) => type_code_of(value@) == Ok::<Seq<u8>, ChunkTypeError>(t@),
                Err(e) => type_code_of(value@) == Err::<Seq<u8>, ChunkTypeError>(e),
            },
    {
        let r = ChunkType::from_bytes(value);
        match r {
            Ok(_) => Ok(ChunkType { bytes: value }),
            Err(e) => Err(e),
        }
    }
}

impl vstd::std_specs::convert::TryFromSpecImpl<[u8; 4]> for ChunkType {
    open spec fn obeys_try_from_spec() -> bool {
        true
    }

    closed spec fn try_from_spec(value: [u8; 4]) -> Result<ChunkType, ChunkTypeError> {
        match type_code_of(value@) {
            Ok(_) => Ok(ChunkType { bytes: value }),
            Err(e) => Err(e),
        }
    }
}

impl core::str::FromStr for ChunkType {
    type Err = ChunkTypeError;

    fn from_str(s: &str) -> (r: Result<ChunkType, ChunkTypeError>)
        ensures
            match r {
                Ok(t) => type_code_of_text(encode_utf8(s@)) == Ok::<Seq<u8>, ChunkTypeError>(t@),
                Err(e) => type_code_of_text(encode_utf8(s@)) == Err::<Seq<u8>, ChunkTypeError>(e),
            },
    {
        ChunkType::from_text(s)
    }
}

} // verus!
