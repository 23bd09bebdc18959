//! One length-prefixed, typed and checksummed record of a chunk stream.
use crate::chunk_type::ChunkType;
use crate::error::PngError;
use crate::text::{decimal, lossy_text, u32_text, utf8_lossy};
use crc::{Crc, CRC_32_ISO_HDLC};
use vstd::prelude::*;

verus! {

/// The CRC-32 (ISO-HDLC polynomial, as PNG and zip use it) of a byte sequence.
pub uninterp spec fn crc32_iso_hdlc(bytes: Seq<u8>) -> u32;

/// Relies on crc's `Crc::<u32>::checksum` under the `CRC_32_ISO_HDLC` algorithm:
/// the checksum is a function of the bytes alone.
#[verifier::external_body]
fn checksum(bytes: &[u8]) -> (r: u32)
    ensures
        r == crc32_iso_hdlc(bytes@),
{
    Crc::<u32>::new(&CRC_32_ISO_HDLC).checksum(bytes)
}

/// The big-endian number held in the first four bytes.
pub open spec fn be_u32(b: Seq<u8>) -> u32 {
    ((b[0] as u32) << 24u32) | ((b[1] as u32) << 16u32) | ((b[2] as u32) << 8u32) | (b[3] as u32)
}

/// The four big-endian bytes of `x`.
pub open spec fn u32_be(x: u32) -> Seq<u8> {
    seq![(x >> 24u32) as u8, (x >> 16u32) as u8, (x >> 8u32) as u8, x as u8]
}

proof fn lemma_be_of_bytes(x: u32)
    ensures
        be_u32(u32_be(x)) == x,
{
    let b = u32_be(x);
    assert(((((x >> 24u32) as u8) as u32) << 24u32) | ((((x >> 16u32) as u8) as u32) << 16u32)
        | ((((x >> 8u32) as u8) as u32) << 8u32) | ((x as u8) as u32) == x) by (bit_vector);
}

proof fn lemma_bytes_of_be(b: Seq<u8>)
    requires
        b.len() == 4,
    ensures
        u32_be(be_u32(b)) == b,
{
    let (b0, b1, b2, b3) = (b[0], b[1], b[2], b[3]);
    let x = be_u32(b);
    assert(x == ((b0 as u32) << 24u32) | ((b1 as u32) << 16u32) | ((b2 as u32) << 8u32) | (
    b3 as u32));
    assert((x >> 24u32) as u8 == b0 && (x >> 16u32) as u8 == b1 && (x >> 8u32) as u8 == b2
        && x as u8 == b3) by (bit_vector)
        requires
            x == ((b0 as u32) << 24u32) | ((b1 as u32) << 16u32) | ((b2 as u32) << 8u32) | (
            b3 as u32),
    ;
    assert(u32_be(x) =~= b);
}

/// What a chunk holds: its declared length, type bytes, data and checksum.
pub struct ChunkView {
    pub length: u32,
    pub kind: Seq<u8>,
    pub data: Seq<u8>,
    pub crc: u32,
}

/// The chunk built fresh from a type and its data.
pub open spec fn created(kind: Seq<u8>, data: Seq<u8>) -> ChunkView {
    ChunkView { length: data.len() as u32, kind, data, crc: crc32_iso_hdlc(kind + data) }
}

/// Length field, type, data and checksum, as the stream carries them.
pub open spec fn encoding(c: ChunkView) -> Seq<u8> {
    u32_be(c.length) + c.kind + c.data + u32_be(c.crc)
}

/// The data length that a chunk starting at `b` declares.
pub open spec fn declared_len(b: Seq<u8>) -> nat {
    be_u32(b.subrange(0, 4)) as nat
}

/// `b` holds a whole chunk at its start: header, declared data and checksum.
pub open spec fn frame_fits(b: Seq<u8>) -> bool {
    b.len() >= 12 && b.len() >= 12 + declared_len(b)
}

/// The chunk that starts `b`, framed by its declared length; bytes after it are
/// not read.
#[verifier::opaque]
pub open spec fn decode_chunk(b: Seq<u8>) -> Result<ChunkView, PngError> {
    if !frame_fits(b) {
        Err(PngError::TruncatedInput)
    } else {
        let n = declared_len(b) as int;
        let kind = b.subrange(4, 8);
        let data = b.subrange(8, 8 + n);
        let stored = be_u32(b.subrange(8 + n, 12 + n));
        if crc32_iso_hdlc(kind + data) != stored {
            Err(PngError::InvalidCrc)
        } else {
            Ok(ChunkView { length: n as u32, kind, data, crc: stored })
        }
    }
}

/// The text of a chunk: decimal length, type, data decoded lossily, decimal checksum.
pub open spec fn chunk_text(c: ChunkView) -> Seq<char> {
    decimal(c.length as nat) + utf8_lossy(c.kind) + utf8_lossy(c.data) + decimal(c.crc as nat)
}

/// The declared length matches the data, the type has four bytes and the checksum
/// covers type and data: what every chunk built or decoded here satisfies.
pub open spec fn well_formed(c: ChunkView) -> bool {
    &&& c.kind.len() == 4
    &&& c.length as nat == c.data.len()
    &&& c.crc == crc32_iso_hdlc(c.kind + c.data)
}

/// A chunk decodes only from bytes that hold its whole frame, and its length is the
/// declared one.
pub proof fn lemma_decode_frames(b: Seq<u8>)
    ensures
        !frame_fits(b) ==> decode_chunk(b) == Err::<ChunkView, PngError>(PngError::TruncatedInput),
        decode_chunk(b) matches Ok(c) ==> frame_fits(b) && c.length as nat == declared_len(b),
{
    reveal(decode_chunk);
}

/// A well-formed chunk decodes back from its bytes, whatever follows them.
pub proof fn lemma_decode_prefix(c: ChunkView, tail: Seq<u8>)
    requires
        well_formed(c),
    ensures
        frame_fits(encoding(c) + tail),
        declared_len(encoding(c) + tail) == c.data.len(),
        decode_chunk(encoding(c) + tail) == Ok::<ChunkView, PngError>(c),
{
    reveal(decode_chunk);
    let b = encoding(c) + tail;
    let n = c.data.len() as int;
    assert(b.subrange(0, 4) =~= u32_be(c.length));
    lemma_be_of_bytes(c.length);
    assert(b.subrange(4, 8) =~= c.kind);
    assert(b.subrange(8, 8 + n) =~= c.data);
    assert(b.subrange(8 + n, 12 + n) =~= u32_be(c.crc));
    lemma_be_of_bytes(c.crc);
}

/// Decoding the bytes of a freshly built chunk gives that chunk back.
pub proof fn lemma_round_trip(kind: Seq<u8>, data: Seq<u8>)
    requires
        kind.len() == 4,
        data.len() <= u32::MAX,
    ensures
        decode_chunk(encoding(created(kind, data))) == Ok::<ChunkView, PngError>(
            created(kind, data),
        ),
{
    let c = created(kind, data);
    lemma_decode_prefix(c, Seq::empty());
    assert(encoding(c) + Seq::<u8>::empty() =~= encoding(c));
}

/// A fresh chunk whose trailing checksum bytes are replaced by any other four bytes
/// no longer decodes: the checksum check fails.
pub proof fn lemma_corrupt_crc(kind: Seq<u8>, data: Seq<u8>, stored: Seq<u8>)
    requires
        kind.len() == 4,
        data.len() <= u32::MAX,
        stored.len() == 4,
        stored != u32_be(created(kind, data).crc),
    ensures
        decode_chunk(u32_be(data.len() as u32) + kind + data + stored) == Err::<
            ChunkView,
            PngError,
        >(PngError::InvalidCrc),
{
    reveal(decode_chunk);
    let c = created(kind, data);
    let b = u32_be(data.len() as u32) + kind + data + stored;
    let n = data.len() as int;
    assert(b.subrange(0, 4) =~= u32_be(c.length));
    lemma_be_of_bytes(c.length);
    assert(b.subrange(4, 8) =~= kind);
    assert(b.subrange(8, 8 + n) =~= data);
    assert(b.subrange(8 + n, 12 + n) =~= stored);
    lemma_bytes_of_be(stored);
}

#[derive(Debug, Clone)]
pub struct Chunk {
    length: u32,
    chunk_type: ChunkType,
    data: Vec<u8>,
    crc: u32,
}

impl View for Chunk {
    type V = ChunkView;

    closed spec fn view(&self) -> ChunkView {
        ChunkView {
            length: self.length,
            kind: self.chunk_type@,
            data: self.data@,
            crc: self.crc,
        }
    }
}

/// The checksum over `kind ++ data`.
fn calculate_crc(chunk_type: &ChunkType, data: &[u8]) -> (r: u32)
    ensures
        r == crc32_iso_hdlc(chunk_type@ + data@),
{
    let kind = chunk_type.bytes();
    let mut all: Vec<u8> = Vec::new();
    let mut i: usize = 0;
    while i < 4
        invariant
            i <= 4,
            kind@ == chunk_type@,
            kind@.len() == 4,
            all@ == kind@.subrange(0, i as int),
        decreases 4 - i,
    {
        all.push(kind[i]);
        i = i + 1;
        assert(all@ =~= kind@.subrange(0, i as int));
    }
    let mut j: usize = 0;
    while j < data.len()
        invariant
            j <= data@.len(),
            kind@.len() == 4,
            all@ == kind@ + data@.subrange(0, j as int),
        decreases data@.len() - j,
    {
        all.push(data[j]);
        j = j + 1;
        assert(all@ =~= kind@ + data@.subrange(0, j as int));
    }
    assert(data@.subrange(0, data@.len() as int) =~= data@);
    assert(chunk_type@ == kind@);
    checksum(all.as_slice())
}

/// Reads the big-endian number at `p`.
fn read_be(b: &[u8], p: usize) -> (r: u32)
    requires
        p + 4 <= b@.len(),
    ensures
        r == be_u32(b@.subrange(p as int, p + 4)),
{
    ((b[p] as u32) << 24u32) | ((b[p + 1] as u32) << 16u32) | ((b[p + 2] as u32) << 8u32) | (b[p
        + 3] as u32)
}

/// Appends the four big-endian bytes of `x`.
fn push_be(out: &mut Vec<u8>, x: u32)
    ensures
        final(out)@ == old(out)@ + u32_be(x),
{
    out.push((x >> 24u32) as u8);
    out.push((x >> 16u32) as u8);
    out.push((x >> 8u32) as u8);
    out.push(x as u8);
    assert(final(out)@ =~= old(out)@ + u32_be(x));
}

impl<'a> TryFrom<&'a [u8]> for Chunk {
    type Error = PngError;

    fn try_from(bytes: &'a [u8]) -> (r: Result<Chunk, PngError>)
        ensures
            match r {
                Ok(c) => decode_chunk(bytes@) == Ok::<ChunkView, PngError>(c@),
                Err(e) => decode_chunk(bytes@) == Err::<ChunkView, PngError>(e),
            },
    {
        Chunk::decode(bytes)
    }
}

impl<'a> vstd::std_specs::convert::TryFromSpecImpl<&'a [u8]> for Chunk {
    /// A chunk owns a `Vec`, which no spec function can build, so the contract of
    /// `try_from` says what it returns instead.
    open spec fn obeys_try_from_spec() -> bool {
        false
    }

    closed spec fn try_from_spec(bytes: &'a [u8]) -> Result<Chunk, PngError> {
        Err(PngError::TruncatedInput)
    }
}

impl Chunk {
    /// Builds a chunk of the given type around `data`, computing its checksum.
    pub fn new(chunk_type: ChunkType, data: Vec<u8>) -> (r: Chunk)
        requires
            data@.len() <= u32::MAX,
        ensures
            r@ == created(chunk_type@, data@),
            well_formed(r@),
    {
        let length = data.len() as u32;
        let crc = calculate_crc(&chunk_type, data.as_slice());
        Chunk { length, chunk_type, data, crc }
    }

    /// Decodes the chunk that starts at `start` in `bytes`.
    pub fn decode_at(bytes: &[u8], start: usize) -> (r: Result<Chunk, PngError>)
        requires
            start <= bytes@.len(),
        ensures
            r matches Ok(c) ==> well_formed(c@),
            match r {
                Ok(c) => decode_chunk(bytes@.subrange(start as int, bytes@.len() as int)) == Ok::<
                    ChunkView,
                    PngError,
                >(c@),
                Err(e) => decode_chunk(bytes@.subrange(start as int, bytes@.len() as int)) == Err::<
                    ChunkView,
                    PngError,
                >(e),
            },
    {
        let ghost b = bytes@.subrange(start as int, bytes@.len() as int);
        proof {
            reveal(decode_chunk);
        }
        let rest = bytes.len() - start;
        if rest < 12 {
            return Err(PngError::TruncatedInput);
        }
        let n = read_be(bytes, start);
        assert(bytes@.subrange(start as int, start + 4) =~= b.subrange(0, 4));
        if rest - 12 < n as usize {
            return Err(PngError::TruncatedInput);
        }
        let n = n as usize;
        let mut kind: [u8; 4] = [0u8; 4];
        kind[0] = bytes[start + 4];
        kind[1] = bytes[start + 5];
        kind[2] = bytes[start + 6];
        kind[3] = bytes[start + 7];
        let chunk_type = ChunkType::from_bytes(kind);
        assert(kind@ =~= b.subrange(4, 8));
        let mut data: Vec<u8> = Vec::new();
        let mut i: usize = 0;
        while i < n
            invariant
                i <= n,
                start + 12 + n <= bytes@.len(),
                bytes@.len() <= usize::MAX,
                b == bytes@.subrange(start as int, bytes@.len() as int),
                data@ == b.subrange(8, 8 + i),
            decreases n - i,
        {
            data.push(bytes[start + 8 + i]);
            i = i + 1;
            assert(data@ =~= b.subrange(8, 8 + i));
        }
        let stored = read_be(bytes, start + 8 + n);
        assert(bytes@.subrange(start + 8 + n, start + 12 + n) =~= b.subrange(8 + n, 12 + n));
        let crc = calculate_crc(&chunk_type, data.as_slice());
        if crc != stored {
            return Err(PngError::InvalidCrc);
        }
        Ok(Chunk { length: n as u32, chunk_type, data, crc })
    }

    /// Decodes the chunk that starts `bytes`.
    pub fn decode(bytes: &[u8]) -> (r: Result<Chunk, PngError>)
        ensures
            match r {
                Ok(c) => decode_chunk(bytes@) == Ok::<ChunkView, PngError>(c@),
                Err(e) => decode_chunk(bytes@) == Err::<ChunkView, PngError>(e),
            },
    {
        assert(bytes@.subrange(0, bytes@.len() as int) =~= bytes@);
        Chunk::decode_at(bytes, 0)
    }

    /// The declared data length.
    pub fn length(&self) -> (r: u32)
        ensures
            r == self@.length,
    {
        self.length
    }

    /// The chunk's type.
    pub fn chunk_type(&self) -> (r: &ChunkType)
        ensures
            r@ == self@.kind,
    {
        &self.chunk_type
    }

    /// The chunk's data.
    pub fn data(&self) -> (r: &[u8])
        ensures
            r@ == self@.data,
    {
        self.data.as_slice()
    }

    /// The chunk's checksum.
    pub fn crc(&self) -> (r: u32)
        ensures
            r == self@.crc,
    {
        self.crc
    }

    /// The data decoded as UTF-8, with invalid sequences replaced; never fails.
    pub fn data_as_string(&self) -> (r: Result<String, PngError>)
        ensures
            r matches Ok(t) && t@ == utf8_lossy(self@.data),
    {
        Ok(lossy_text(self.data.as_slice()))
    }

    /// The chunk as the stream carries it: length, type, data, checksum.
    pub fn as_bytes(&self) -> (r: Vec<u8>)
        ensures
            r@ == encoding(self@),
    {
        let mut out: Vec<u8> = Vec::new();
        push_be(&mut out, self.length);
        let kind = self.chunk_type.bytes();
        let mut i: usize = 0;
        while i < 4
            invariant
                i <= 4,
                kind@ == self.chunk_type@,
                kind@.len() == 4,
                out@ == u32_be(self.length) + kind@.subrange(0, i as int),
            decreases 4 - i,
        {
            out.push(kind[i]);
            i = i + 1;
            assert(out@ =~= u32_be(self.length) + kind@.subrange(0, i as int));
        }
        assert(kind@.subrange(0, 4) =~= kind@);
        let mut j: usize = 0;
        while j < self.data.len()
            invariant
                j <= self.data@.len(),
                out@ == u32_be(self.length) + kind@ + self.data@.subrange(0, j as int),
            decreases self.data@.len() - j,
        {
            out.push(self.data[j]);
            j = j + 1;
            assert(out@ =~= u32_be(self.length) + kind@ + self.data@.subrange(0, j as int));
        }
        assert(self.data@.subrange(0, self.data@.len() as int) =~= self.data@);
        push_be(&mut out, self.crc);
        out
    }

    /// The chunk as text: decimal length, type, data decoded lossily, decimal checksum.
    pub fn to_string(&self) -> (r: String)
        ensures
            r@ == chunk_text(self@),
    {
        let mut out = u32_text(self.length);
        let kind = self.chunk_type.bytes();
        let kind_text = lossy_text(kind.as_slice());
        out.append(kind_text.as_str());
        let data_text = lossy_text(self.data.as_slice());
        out.append(data_text.as_str());
        let crc_text = u32_text(self.crc);
        out.append(crc_text.as_str());
        out
    }
}

} // verus!
