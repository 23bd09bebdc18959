//! The container: the fixed signature followed by an ordered sequence of chunks.
use crate::chunk::{
    chunk_text, declared_len, decode_chunk, encoding, frame_fits, lemma_decode_frames,
    lemma_decode_prefix, well_formed, Chunk, ChunkView,
};
use crate::chunk_type::ChunkType;
use crate::error::PngError;
use vstd::prelude::*;
use vstd::string::StringSliceAdditionalSpecFns;

verus! {

/// The eight bytes that open every stream.
pub open spec fn signature() -> Seq<u8> {
    seq![137u8, 80u8, 78u8, 71u8, 13u8, 10u8, 26u8, 10u8]
}

/// The chunks laid end to end, each framed by its own declared length.
pub open spec fn parse_chunks(b: Seq<u8>) -> Result<Seq<ChunkView>, PngError>
    decreases b.len(),
{
    if b.len() == 0 {
        Ok(Seq::empty())
    } else if !frame_fits(b) {
        Err(PngError::TruncatedInput)
    } else {
        match decode_chunk(b) {
            Err(e) => Err(e),
            Ok(c) => prepend(c, parse_chunks(b.subrange(12 + declared_len(b) as int, b.len() as int))),
        }
    }
}

/// `c` in front of a parsed sequence; an error stays as it is.
pub open spec fn prepend(c: ChunkView, r: Result<Seq<ChunkView>, PngError>) -> Result<
    Seq<ChunkView>,
    PngError,
> {
    match r {
        Ok(rest) => Ok(seq![c] + rest),
        Err(e) => Err(e),
    }
}

/// A parsed sequence after the chunks `front`; an error stays as it is.
pub open spec fn after(front: Seq<ChunkView>, r: Result<Seq<ChunkView>, PngError>) -> Result<
    Seq<ChunkView>,
    PngError,
> {
    match r {
        Ok(rest) => Ok(front + rest),
        Err(e) => Err(e),
    }
}

/// The stream starts with the signature.
pub open spec fn has_signature(b: Seq<u8>) -> bool {
    b.len() >= 8 && b.subrange(0, 8) == signature()
}

/// What a stream decodes to: its signature checked, then its chunks.
pub open spec fn decode_png(b: Seq<u8>) -> Result<Seq<ChunkView>, PngError> {
    if !has_signature(b) {
        Err(PngError::SignatureMismatch)
    } else {
        parse_chunks(b.subrange(8, b.len() as int))
    }
}

/// The encodings of the chunks, in order.
pub open spec fn encode_chunks(cs: Seq<ChunkView>) -> Seq<u8>
    decreases cs.len(),
{
    if cs.len() == 0 {
        Seq::empty()
    } else {
        encode_chunks(cs.drop_last()) + encoding(cs.last())
    }
}

/// The texts of the chunks, in order.
pub open spec fn chunks_text(cs: Seq<ChunkView>) -> Seq<char>
    decreases cs.len(),
{
    if cs.len() == 0 {
        Seq::empty()
    } else {
        chunks_text(cs.drop_last()) + chunk_text(cs.last())
    }
}

/// The views of a sequence of chunks.
pub open spec fn views(cs: Seq<Chunk>) -> Seq<ChunkView> {
    cs.map_values(|c: Chunk| c@)
}

/// A chunk's type bytes spell the given text.
pub open spec fn has_type(c: ChunkView, text: Seq<u8>) -> bool {
    c.kind == text
}

/// `i` is the first position whose chunk has the type spelled by `text`.
pub open spec fn first_of_type(cs: Seq<ChunkView>, text: Seq<u8>, i: int) -> bool {
    &&& 0 <= i < cs.len()
    &&& has_type(cs[i], text)
    &&& forall|j: int| 0 <= j < i ==> !has_type(#[trigger] cs[j], text)
}

/// No chunk has the type spelled by `text`.
pub open spec fn none_of_type(cs: Seq<ChunkView>, text: Seq<u8>) -> bool {
    forall|j: int| 0 <= j < cs.len() ==> !has_type(#[trigger] cs[j], text)
}

/// A stream that does not start with the signature is refused, whatever follows.
pub proof fn lemma_signature_mismatch(b: Seq<u8>)
    requires
        b.len() < 8 || b.subrange(0, 8) != signature(),
    ensures
        decode_png(b) == Err::<Seq<ChunkView>, PngError>(PngError::SignatureMismatch),
{
}

/// Encoding a sequence is encoding its first chunk, then the others.
proof fn lemma_encode_front(c: ChunkView, rest: Seq<ChunkView>)
    ensures
        encode_chunks(seq![c] + rest) == encoding(c) + encode_chunks(rest),
    decreases rest.len(),
{
    let cs = seq![c] + rest;
    if rest.len() == 0 {
        assert(cs.drop_last() =~= Seq::<ChunkView>::empty());
        assert(cs.last() == c);
        assert(encode_chunks(cs.drop_last()) == Seq::<u8>::empty());
        assert(encode_chunks(rest) == Seq::<u8>::empty());
        assert(encode_chunks(cs) =~= encoding(c) + encode_chunks(rest));
    } else {
        assert(cs.drop_last() =~= seq![c] + rest.drop_last());
        assert(cs.last() == rest.last());
        lemma_encode_front(c, rest.drop_last());
        assert(encode_chunks(rest) == encode_chunks(rest.drop_last()) + encoding(rest.last()));
        assert(encode_chunks(cs) == encode_chunks(cs.drop_last()) + encoding(cs.last()));
        assert(encode_chunks(cs) =~= encoding(c) + encode_chunks(rest));
    }
}

/// One step of parsing: a chunk that decodes, then whatever follows it.
proof fn lemma_parse_step(b: Seq<u8>, c: ChunkView)
    requires
        frame_fits(b),
        decode_chunk(b) == Ok::<ChunkView, PngError>(c),
    ensures
        parse_chunks(b) == prepend(c, parse_chunks(b.subrange(12 + declared_len(b) as int, b.len() as int))),
{
}

/// A well-formed chunk in front of any bytes parses as that chunk, then the bytes.
proof fn lemma_parse_front(c: ChunkView, tail: Seq<u8>)
    requires
        well_formed(c),
    ensures
        parse_chunks(encoding(c) + tail) == prepend(c, parse_chunks(tail)),
{
    let b = encoding(c) + tail;
    lemma_decode_prefix(c, tail);
    let e = encoding(c);
    let n = c.data.len() as int;
    assert(e.len() == 12 + n);
    assert(b.subrange(12 + n, b.len() as int) =~= tail) by {
        assert forall|i: int| 0 <= i < tail.len() implies b.subrange(12 + n, b.len() as int)[i]
            == tail[i] by {
            assert(b[12 + n + i] == tail[i]);
        }
    }
    lemma_parse_step(b, c);
}

/// Well-formed chunks laid end to end parse back into themselves.
proof fn lemma_parse_encoded(cs: Seq<ChunkView>)
    requires
        forall|i: int| 0 <= i < cs.len() ==> well_formed(#[trigger] cs[i]),
    ensures
        parse_chunks(encode_chunks(cs)) == Ok::<Seq<ChunkView>, PngError>(cs),
    decreases cs.len(),
{
    if cs.len() == 0 {
        assert(encode_chunks(cs) =~= Seq::<u8>::empty());
        assert(cs =~= Seq::<ChunkView>::empty());
    } else {
        let c = cs[0];
        let rest = cs.subrange(1, cs.len() as int);
        assert(cs =~= seq![c] + rest);
        lemma_encode_front(c, rest);
        assert(well_formed(c));
        lemma_parse_front(c, encode_chunks(rest));
        assert forall|i: int| 0 <= i < rest.len() implies well_formed(#[trigger] rest[i]) by {
            assert(rest[i] == cs[i + 1]);
        }
        lemma_parse_encoded(rest);
    }
}

/// Decoding the stream encoded from well-formed chunks gives those chunks back.
pub proof fn lemma_stream_round_trip(cs: Seq<ChunkView>)
    requires
        forall|i: int| 0 <= i < cs.len() ==> well_formed(#[trigger] cs[i]),
    ensures
        decode_png(signature() + encode_chunks(cs)) == Ok::<Seq<ChunkView>, PngError>(cs),
{
    let b = signature() + encode_chunks(cs);
    assert(b.subrange(0, 8) =~= signature());
    assert(b.subrange(8, b.len() as int) =~= encode_chunks(cs));
    lemma_parse_encoded(cs);
}

/// The signature bytes.
fn signature_bytes() -> (r: [u8; 8])
    ensures
        r@ == signature(),
{
    let mut r: [u8; 8] = [0u8; 8];
    r[0] = 137;
    r[1] = 80;
    r[2] = 78;
    r[3] = 71;
    r[4] = 13;
    r[5] = 10;
    r[6] = 26;
    r[7] = 10;
    assert(r@ =~= signature());
    r
}

/// Whether the type's bytes equal `text`.
fn type_is(t: &ChunkType, text: &[u8]) -> (r: bool)
    ensures
        r == (t@ == text@),
{
    let b = t.bytes();
    if text.len() != 4 {
        return false;
    }
    let r = b[0] == text[0] && b[1] == text[1] && b[2] == text[2] && b[3] == text[3];
    assert(r ==> b@ =~= text@);
    r
}

pub struct Png {
    chunks: Vec<Chunk>,
}

impl View for Png {
    type V = Seq<ChunkView>;

    closed spec fn view(&self) -> Seq<ChunkView> {
        views(self.chunks@)
    }
}

impl<'a> TryFrom<&'a [u8]> for Png {
    type Error = PngError;

    fn try_from(bytes: &'a [u8]) -> (r: Result<Png, PngError>)
        ensures
            match r {
                Ok(p) => decode_png(bytes@) == Ok::<Seq<ChunkView>, PngError>(p@),
                Err(e) => decode_png(bytes@) == Err::<Seq<ChunkView>, PngError>(e),
            },
    {
        Png::decode(bytes)
    }
}

impl<'a> vstd::std_specs::convert::TryFromSpecImpl<&'a [u8]> for Png {
    /// A container owns a `Vec`, which no spec function can build, so the contract
    /// of `try_from` says what it returns instead.
    open spec fn obeys_try_from_spec() -> bool {
        false
    }

    closed spec fn try_from_spec(bytes: &'a [u8]) -> Result<Png, PngError> {
        Err(PngError::SignatureMismatch)
    }
}

impl Png {
    /// A container holding the given chunks, in order.
    pub fn from_chunks(chunks: Vec<Chunk>) -> (r: Png)
        ensures
            r@ == views(chunks@),
    {
        Png { chunks }
    }

    /// Decodes a whole stream: the signature, then chunks until the bytes run out.
    pub fn decode(bytes: &[u8]) -> (r: Result<Png, PngError>)
        ensures
            match r {
                Ok(p) => decode_png(bytes@) == Ok::<Seq<ChunkView>, PngError>(p@),
                Err(e) => decode_png(bytes@) == Err::<Seq<ChunkView>, PngError>(e),
            },
    {
        let sig = signature_bytes();
        if bytes.len() < 8 {
            return Err(PngError::SignatureMismatch);
        }
        let mut k: usize = 0;
        while k < 8
            invariant
                k <= 8,
                bytes@.len() >= 8,
                sig@ == signature(),
                forall|j: int| 0 <= j < k ==> bytes@[j] == #[trigger] sig@[j],
            decreases 8 - k,
        {
            if bytes[k] != sig[k] {
                assert(bytes@.subrange(0, 8)[k as int] != signature()[k as int]);
                return Err(PngError::SignatureMismatch);
            }
            k = k + 1;
        }
        assert(bytes@.subrange(0, 8) =~= signature());
        let ghost b = bytes@;
        let mut chunks: Vec<Chunk> = Vec::new();
        let mut pos: usize = 8;
        assert(views(chunks@) =~= Seq::<ChunkView>::empty());
        proof {
            match parse_chunks(b.subrange(8, b.len() as int)) {
                Ok(t) => {
                    assert(Seq::<ChunkView>::empty() + t =~= t);
                },
                Err(_) => {},
            }
        }
        while pos < bytes.len()
            invariant
                8 <= pos <= b.len(),
                b == bytes@,
                decode_png(b) == after(views(chunks@), parse_chunks(b.subrange(pos as int, b.len() as int))),
            decreases b.len() - pos,
        {
            let ghost rest = b.subrange(pos as int, b.len() as int);
            proof {
                lemma_decode_frames(rest);
            }
            match Chunk::decode_at(bytes, pos) {
                Err(e) => {
                    return Err(e);
                },
                Ok(c) => {
                    let n = c.length() as usize;
                    let next = pos + 12 + n;
                    assert(rest.subrange(12 + declared_len(rest) as int, rest.len() as int) =~= b.subrange(
                        next as int,
                        b.len() as int,
                    ));
                    proof {
                        let tail = parse_chunks(b.subrange(next as int, b.len() as int));
                        assert(parse_chunks(rest) == prepend(c@, tail));
                        let front = views(chunks@);
                        match tail {
                            Ok(t) => {
                                assert(front + (seq![c@] + t) =~= front.push(c@) + t);
                            },
                            Err(_) => {},
                        }
                    }
                    let ghost before = chunks@;
                    chunks.push(c);
                    assert(views(chunks@) =~= views(before).push(c@));
                    pos = next;
                }
            }
        }
        proof {
            let front = views(chunks@);
            assert(b.subrange(pos as int, b.len() as int) =~= Seq::<u8>::empty());
            assert(front + Seq::<ChunkView>::empty() =~= front);
        }
        Ok(Png { chunks })
    }

    /// The eight signature bytes that open the stream.
    pub fn header(&self) -> (r: [u8; 8])
        ensures
            r@ == signature(),
    {
        signature_bytes()
    }

    /// The chunks, in order.
    pub fn chunks(&self) -> (r: &[Chunk])
        ensures
            views(r@) == self@,
    {
        self.chunks.as_slice()
    }

    /// Adds a chunk at the end of the sequence.
    pub fn append_chunk(&mut self, chunk: Chunk)
        ensures
            final(self)@ == old(self)@.push(chunk@),
    {
        let ghost before = self.chunks@;
        self.chunks.push(chunk);
        assert(views(self.chunks@) =~= views(before).push(chunk@));
    }

    /// Position of the first chunk whose type bytes equal `text`.
    fn position_of(&self, text: &[u8]) -> (r: Option<usize>)
        ensures
            match r {
                Some(i) => first_of_type(self@, text@, i as int),
                None => none_of_type(self@, text@),
            },
    {
        let mut i: usize = 0;
        while i < self.chunks.len()
            invariant
                i <= self.chunks@.len(),
                self@.len() == self.chunks@.len(),
                forall|j: int| 0 <= j < i ==> !has_type(#[trigger] self@[j], text@),
            decreases self.chunks@.len() - i,
        {
            if type_is(self.chunks[i].chunk_type(), text) {
                return Some(i);
            }
            i = i + 1;
        }
        None
    }

    /// Removes the first chunk whose type is spelled by `chunk_type` and returns it;
    /// later chunks of that type stay.
    pub fn remove_chunk(&mut self, chunk_type: &str) -> (r: Result<Chunk, PngError>)
        ensures
            match r {
                Ok(c) => exists|i: int|
                    first_of_type(old(self)@, chunk_type.spec_bytes(), i) && c@ == old(self)@[i]
                        && final(self)@ == old(self)@.remove(i),
                Err(e) => e == PngError::ChunkNotFound && none_of_type(
                    old(self)@,
                    chunk_type.spec_bytes(),
                ) && final(self)@ == old(self)@,
            },
    {
        match self.position_of(chunk_type.as_bytes()) {
            None => Err(PngError::ChunkNotFound),
            Some(i) => {
                let ghost before = self.chunks@;
                let c = self.chunks.remove(i);
                assert(views(self.chunks@) =~= views(before).remove(i as int));
                Ok(c)
            },
        }
    }

    /// The first chunk whose type is spelled by `chunk_type`, if any.
    pub fn chunk_by_type(&self, chunk_type: &str) -> (r: Option<&Chunk>)
        ensures
            match r {
                Some(c) => exists|i: int|
                    first_of_type(self@, chunk_type.spec_bytes(), i) && c@ == self@[i],
                None => none_of_type(self@, chunk_type.spec_bytes()),
            },
    {
        match self.position_of(chunk_type.as_bytes()) {
            None => None,
            Some(i) => Some(&self.chunks[i]),
        }
    }

    /// The stream: the signature, then each chunk's bytes in order.
    pub fn as_bytes(&self) -> (r: Vec<u8>)
        ensures
            r@ == signature() + encode_chunks(self@),
    {
        let sig = signature_bytes();
        let mut out: Vec<u8> = Vec::new();
        let mut k: usize = 0;
        while k < 8
            invariant
                k <= 8,
                sig@ == signature(),
                out@ == signature().subrange(0, k as int),
            decreases 8 - k,
        {
            out.push(sig[k]);
            k = k + 1;
            assert(out@ =~= signature().subrange(0, k as int));
        }
        assert(signature().subrange(0, 8) =~= signature());
        let mut i: usize = 0;
        while i < self.chunks.len()
            invariant
                i <= self.chunks@.len(),
                self@.len() == self.chunks@.len(),
                out@ == signature() + encode_chunks(self@.subrange(0, i as int)),
            decreases self.chunks@.len() - i,
        {
            let bytes = self.chunks[i].as_bytes();
            let mut j: usize = 0;
            let ghost start = out@;
            while j < bytes.len()
                invariant
                    j <= bytes@.len(),
                    out@ == start + bytes@.subrange(0, j as int),
                decreases bytes@.len() - j,
            {
                out.push(bytes[j]);
                j = j + 1;
                assert(out@ =~= start + bytes@.subrange(0, j as int));
            }
            proof {
                let front = self@.subrange(0, i + 1);
                assert(front.drop_last() =~= self@.subrange(0, i as int));
                assert(bytes@.subrange(0, bytes@.len() as int) =~= bytes@);
                assert(out@ =~= signature() + encode_chunks(front));
            }
            i = i + 1;
        }
        assert(self@.subrange(0, self@.len() as int) =~= self@);
        out
    }

    /// The text of every chunk, in order.
    pub fn to_string(&self) -> (r: String)
        ensures
            r@ == chunks_text(self@),
    {
        let mut out = String::new();
        let mut i: usize = 0;
        while i < self.chunks.len()
            invariant
                i <= self.chunks@.len(),
                self@.len() == self.chunks@.len(),
                out@ == chunks_text(self@.subrange(0, i as int)),
            decreases self.chunks@.len() - i,
        {
            let t = self.chunks[i].to_string();
            out.append(t.as_str());
            proof {
                let front = self@.subrange(0, i + 1);
                assert(front.drop_last() =~= self@.subrange(0, i as int));
            }
            i = i + 1;
        }
        assert(self@.subrange(0, self@.len() as int) =~= self@);
        out
    }
}

} // verus!
