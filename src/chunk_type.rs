//! The four-byte chunk type tag and the properties its letter case encodes.
use crate::text::{all_ascii, ascii_chars, lossy_text, utf8_lossy};
use vstd::prelude::*;

verus! {

/// Byte 0: uppercase when the chunk is critical, lowercase when ancillary.
pub const ANCILLARY_BIT: usize = 0;

/// Byte 1: uppercase when the chunk is public, lowercase when private.
pub const PRIVATE_BIT: usize = 1;

/// Byte 2: uppercase in every conforming chunk type.
pub const RESERVED_BIT: usize = 2;

/// Byte 3: lowercase when the chunk is safe to copy.
pub const SAFE_TO_COPY_BIT: usize = 3;

pub open spec fn is_upper(b: u8) -> bool {
    65 <= b <= 90
}

pub open spec fn is_lower(b: u8) -> bool {
    97 <= b <= 122
}

pub open spec fn is_letter(b: u8) -> bool {
    is_upper(b) || is_lower(b)
}

/// A character is an ASCII letter.
pub open spec fn is_letter_char(c: char) -> bool {
    (65 <= c as u32 <= 90) || (97 <= c as u32 <= 122)
}

/// The bytes of a text made of ASCII characters.
pub open spec fn ascii_bytes(s: Seq<char>) -> Seq<u8> {
    s.map_values(|c: char| c as u8)
}

/// Why a text is not a chunk type.
#[derive(Debug)]
pub enum Error {
    /// The text does not hold exactly four characters; carries how many it holds.
    TooManyBytes(usize),
    /// The text holds a character that is not an ASCII letter; carries the first one.
    MustBeAlphabetic(char),
}

#[derive(Debug, Clone, Copy, Eq)]
pub struct ChunkType {
    pub(crate) bytes: [u8; 4],
}

impl View for ChunkType {
    type V = Seq<u8>;

    open(crate) spec fn view(&self) -> Seq<u8> {
        self.bytes@
    }
}

impl PartialEq for ChunkType {
    fn eq(&self, o: &ChunkType) -> (r: bool) {
        let r = self.bytes[0] == o.bytes[0] && self.bytes[1] == o.bytes[1] && self.bytes[2]
            == o.bytes[2] && self.bytes[3] == o.bytes[3];
        assert(r ==> self@ =~= o@);
        r
    }
}

impl vstd::std_specs::cmp::PartialEqSpecImpl for ChunkType {
    open spec fn obeys_eq_spec() -> bool {
        true
    }

    open spec fn eq_spec(&self, o: &ChunkType) -> bool {
        self@ == o@
    }
}

impl TryFrom<[u8; 4]> for ChunkType {
    type Error = Error;

    fn try_from(bytes: [u8; 4]) -> (r: Result<ChunkType, Error>)
        ensures
            r matches Ok(t) && t@ == bytes@,
    {
        Ok(ChunkType { bytes })
    }
}

impl vstd::std_specs::convert::TryFromSpecImpl<[u8; 4]> for ChunkType {
    open spec fn obeys_try_from_spec() -> bool {
        true
    }

    closed spec fn try_from_spec(bytes: [u8; 4]) -> Result<ChunkType, Error> {
        Ok(ChunkType { bytes })
    }
}

impl std::str::FromStr for ChunkType {
    type Err = Error;

    fn from_str(s: &str) -> Result<ChunkType, Error> {
        ChunkType::from_str(s)
    }
}

impl ChunkType {
    /// All four bytes are ASCII letters and the reserved byte is uppercase.
    pub open spec fn spec_is_valid(&self) -> bool {
        &&& forall|i: int| 0 <= i < 4 ==> is_letter(#[trigger] self@[i])
        &&& is_upper(self@[2])
    }

    /// Takes four raw bytes as they are, whether or not they form a valid type.
    pub fn from_bytes(bytes: [u8; 4]) -> (r: ChunkType)
        ensures
            r@ == bytes@,
    {
        ChunkType { bytes }
    }

    /// Parses a type from text: exactly four ASCII letters.
    pub fn from_str(s: &str) -> (r: Result<ChunkType, Error>)
        ensures
            s@.len() != 4 ==> r == Err::<ChunkType, Error>(Error::TooManyBytes(s@.len() as usize)),
            s@.len() == 4 ==> match r {
                Ok(t) => (forall|i: int| 0 <= i < 4 ==> is_letter_char(#[trigger] s@[i]))
                    && t@ == ascii_bytes(s@),
                Err(Error::MustBeAlphabetic(c)) => exists|i: int|
                    0 <= i < 4 && s@[i] == c && !is_letter_char(c) && forall|j: int|
                        0 <= j < i ==> is_letter_char(#[trigger] s@[j]),
                Err(Error::TooManyBytes(_)) => false,
            },
    {
        let n = s.unicode_len();
        if n != 4 {
            return Err(Error::TooManyBytes(n));
        }
        let mut bytes: [u8; 4] = [0u8; 4];
        let mut i: usize = 0;
        while i < 4
            invariant
                n == 4,
                s@.len() == 4,
                i <= 4,
                bytes@.len() == 4,
                forall|j: int| 0 <= j < i ==> is_letter_char(#[trigger] s@[j]),
                forall|j: int| 0 <= j < i ==> #[trigger] bytes@[j] == s@[j] as u8,
            decreases 4 - i,
        {
            let c = s.get_char(i);
            let code = c as u32;
            if !((65 <= code && code <= 90) || (97 <= code && code <= 122)) {
                return Err(Error::MustBeAlphabetic(c));
            }
            bytes[i] = c as u8;
            i = i + 1;
        }
        let r = ChunkType { bytes };
        assert(r@ =~= ascii_bytes(s@));
        Ok(r)
    }

    /// The four bytes of the type.
    pub fn bytes(&self) -> (r: [u8; 4])
        ensures
            r@ == self@,
    {
        self.bytes
    }

    /// Whether all four bytes are ASCII letters and the reserved byte is uppercase.
    pub fn is_valid(&self) -> (r: bool)
        ensures
            r == self.spec_is_valid(),
    {
        let mut i: usize = 0;
        while i < 4
            invariant
                i <= 4,
                self@.len() == 4,
                forall|j: int| 0 <= j < i ==> is_letter(#[trigger] self@[j]),
            decreases 4 - i,
        {
            let b = self.bytes[i];
            if !((65 <= b && b <= 90) || (97 <= b && b <= 122)) {
                return false;
            }
            i = i + 1;
        }
        self.is_reserved_bit_valid()
    }

    /// Whether the chunk is critical: byte 0 is uppercase.
    pub fn is_critical(&self) -> (r: bool)
        ensures
            r == is_upper(self@[0]),
    {
        let b = self.bytes[ANCILLARY_BIT];
        65 <= b && b <= 90
    }

    /// Whether the chunk is public: byte 1 is uppercase.
    pub fn is_public(&self) -> (r: bool)
        ensures
            r == is_upper(self@[1]),
    {
        let b = self.bytes[PRIVATE_BIT];
        65 <= b && b <= 90
    }

    /// Whether the reserved byte 2 is uppercase, as conforming types have it.
    pub fn is_reserved_bit_valid(&self) -> (r: bool)
        ensures
            r == is_upper(self@[2]),
    {
        let b = self.bytes[RESERVED_BIT];
        65 <= b && b <= 90
    }

    /// Whether the chunk is safe to copy: byte 3 is lowercase.
    pub fn is_safe_to_copy(&self) -> (r: bool)
        ensures
            r == is_lower(self@[3]),
    {
        let b = self.bytes[SAFE_TO_COPY_BIT];
        97 <= b && b <= 122
    }

    /// The type as text: its bytes decoded as UTF-8, so four letters for a type read
    /// from text.
    pub fn to_string(&self) -> (r: String)
        ensures
            r@ == utf8_lossy(self@),
            all_ascii(self@) ==> r@ == ascii_chars(self@),
    {
        lossy_text(self.bytes.as_slice())
    }
}

} // verus!
