//! Chunk-level codec for the PNG container: signature check, chunk parsing
//! with CRC validation, chunk encoding, and text-chunk construction.

use vstd::prelude::*;
use crate::crc::{crc32_of, CRC};
use crate::util::{copy_range, extend};

verus! {

/// The fixed 8-byte magic signature that opens every file of the container format.
pub open spec fn png_signature() -> Seq<u8> {
    seq![137u8, 80u8, 78u8, 71u8, 13u8, 10u8, 26u8, 10u8]
}

/// The terminator chunk's type tag, "IEND".
pub open spec fn iend_kind() -> Seq<u8> {
    seq![73u8, 69u8, 78u8, 68u8]
}

/// The text chunk's type tag, "tEXt".
pub open spec fn text_kind() -> Seq<u8> {
    seq![116u8, 69u8, 88u8, 116u8]
}

/// Big-endian 4-byte encoding of a 32-bit value.
pub open spec fn be32(n: u32) -> Seq<u8> {
    seq![(n >> 24) as u8, (n >> 16) as u8, (n >> 8) as u8, n as u8]
}

/// The 32-bit value read back from 4 big-endian bytes.
pub open spec fn be32_val(s: Seq<u8>) -> u32 {
    ((s[0] as u32) << 24) | ((s[1] as u32) << 16) | ((s[2] as u32) << 8) | (s[3] as u32)
}

proof fn lemma_be32_roundtrip(n: u32)
    ensures
        be32_val(be32(n)) == n,
{
    let b0 = (n >> 24) as u8;
    let b1 = (n >> 16) as u8;
    let b2 = (n >> 8) as u8;
    let b3 = n as u8;
    assert(((b0 as u32) << 24) | ((b1 as u32) << 16) | ((b2 as u32) << 8) | (b3 as u32) == n)
        by (bit_vector)
        requires
            b0 == (n >> 24) as u8,
            b1 == (n >> 16) as u8,
            b2 == (n >> 8) as u8,
            b3 == n as u8,
    ;
}

/// The mathematical value of one chunk: its 4-byte type tag and its payload.
pub struct ChunkModel {
    pub kind: Seq<u8>,
    pub data: Seq<u8>,
}

/// One unit of the container: a type tag and a payload; the CRC is computed,
/// never stored.
pub struct Chunk {
    pub kind: Vec<u8>,
    pub data: Vec<u8>,
}

impl View for Chunk {
    type V = ChunkModel;

    open spec fn view(&self) -> ChunkModel {
        ChunkModel { kind: self.kind@, data: self.data@ }
    }
}

/// A chunk that the codec can represent on the wire.
pub open spec fn wf_chunk(c: ChunkModel) -> bool {
    &&& c.kind.len() == 4
    &&& c.data.len() <= 0xffffffff
}

/// The views of a sequence of chunks.
pub open spec fn views_of(s: Seq<Chunk>) -> Seq<ChunkModel> {
    s.map_values(|c: Chunk| c@)
}

#[derive(Clone, Copy, Debug, PartialEq, Eq, Structural)]
pub enum FormatError {
    /// The input does not begin with the 8-byte magic signature.
    BadSignature,
    /// A chunk's stored checksum does not match the CRC-32 of its tag and payload.
    CrcMismatch,
    /// The input ends before a complete chunk (or the terminator) was read.
    Truncated,
}

/// Wire form of one chunk: big-endian payload length, tag, payload, and the
/// big-endian CRC-32 of tag plus payload.
pub open spec fn spec_encode_chunk(c: ChunkModel) -> Seq<u8> {
    be32(c.data.len() as u32) + c.kind + c.data + be32(crc32_of(c.kind + c.data))
}

pub open spec fn spec_encode_chunks(cs: Seq<ChunkModel>) -> Seq<u8>
    decreases cs.len(),
{
    if cs.len() == 0 {
        Seq::empty()
    } else {
        spec_encode_chunk(cs[0]) + spec_encode_chunks(cs.skip(1))
    }
}

/// Wire form of a whole file: signature, then each chunk in order.
pub open spec fn spec_encode(cs: Seq<ChunkModel>) -> Seq<u8> {
    png_signature() + spec_encode_chunks(cs)
}

/// Appends the 4-byte big-endian form of `n` to `dst`.
fn push_be32(dst: &mut Vec<u8>, n: u32)
    ensures
        final(dst)@ == old(dst)@ + be32(n),
{
    dst.push((n >> 24) as u8);
    dst.push((n >> 16) as u8);
    dst.push((n >> 8) as u8);
    dst.push(n as u8);
    assert(dst@ =~= old(dst)@ + be32(n));
}

/// Encodes one chunk to its wire form.
pub fn encode_chunk(crc: &CRC, c: &Chunk) -> (r: Vec<u8>)
    requires
        crc.wf(),
        wf_chunk(c@),
    ensures
        r@ == spec_encode_chunk(c@),
{
    let mut tagged: Vec<u8> = Vec::new();
    extend(&mut tagged, &c.kind);
    extend(&mut tagged, &c.data);
    assert(tagged@ =~= c.kind@ + c.data@);
    let checksum: u32 = crc.crc(&tagged);
    let mut r: Vec<u8> = Vec::new();
    push_be32(&mut r, c.data.len() as u32);
    extend(&mut r, &c.kind);
    extend(&mut r, &c.data);
    push_be32(&mut r, checksum);
    assert(r@ =~= spec_encode_chunk(c@));
    r
}

proof fn lemma_encode_chunks_snoc(cs: Seq<ChunkModel>, c: ChunkModel)
    ensures
        spec_encode_chunks(cs.push(c)) == spec_encode_chunks(cs) + spec_encode_chunk(c),
    decreases cs.len(),
{
    if cs.len() == 0 {
        assert(cs.push(c)[0] == c);
        assert(cs.push(c).skip(1) =~= Seq::<ChunkModel>::empty());
        assert(spec_encode_chunks(Seq::<ChunkModel>::empty()) == Seq::<u8>::empty());
        assert(spec_encode_chunks(cs) == Seq::<u8>::empty());
        assert(spec_encode_chunks(cs.push(c)) =~= spec_encode_chunks(cs) + spec_encode_chunk(c));
    } else {
        assert(cs.push(c)[0] == cs[0]);
        assert(cs.push(c).skip(1) =~= cs.skip(1).push(c));
        lemma_encode_chunks_snoc(cs.skip(1), c);
        assert(spec_encode_chunks(cs.push(c)) =~= spec_encode_chunks(cs) + spec_encode_chunk(c));
    }
}

/// Encodes a chunk sequence to a whole file: signature, then each chunk in order.
pub fn encode(crc: &CRC, chunks: &Vec<Chunk>) -> (r: Vec<u8>)
    requires
        crc.wf(),
        forall|i: int| 0 <= i < chunks@.len() ==> wf_chunk(#[trigger] chunks@[i]@),
    ensures
        r@ == spec_encode(views_of(chunks@)),
{
    let mut r: Vec<u8> = Vec::new();
    r.push(137);
    r.push(80);
    r.push(78);
    r.push(71);
    r.push(13);
    r.push(10);
    r.push(26);
    r.push(10);
    assert(r@ =~= png_signature());
    assert(views_of(chunks@).take(0) =~= Seq::<ChunkModel>::empty());
    let mut i: usize = 0;
    while i < chunks.len()
        invariant
            crc.wf(),
            i <= chunks@.len(),
            forall|j: int| 0 <= j < chunks@.len() ==> wf_chunk(#[trigger] chunks@[j]@),
            r@ == png_signature() + spec_encode_chunks(views_of(chunks@).take(i as int)),
        decreases chunks@.len() - i,
    {
        let enc: Vec<u8> = encode_chunk(crc, &chunks[i]);
        extend(&mut r, &enc);
        proof {
            let views = views_of(chunks@);
            assert(views.take(i as int).push(views[i as int]) =~= views.take(i + 1));
            lemma_encode_chunks_snoc(views.take(i as int), views[i as int]);
            assert(r@ =~= png_signature() + spec_encode_chunks(views.take(i + 1)));
        }
        i = i + 1;
    }
    assert(views_of(chunks@).take(chunks@.len() as int) =~= views_of(chunks@));
    r
}

/// Parses one chunk from the front of `rest`: its model and how many bytes it
/// occupied, or the reason the bytes are not a valid chunk.
pub open spec fn spec_parse_chunk(rest: Seq<u8>) -> Result<(ChunkModel, int), FormatError> {
    if rest.len() < 12 {
        Err(FormatError::Truncated)
    } else {
        let len = be32_val(rest.subrange(0, 4)) as int;
        if rest.len() < 12 + len {
            Err(FormatError::Truncated)
        } else {
            let kind = rest.subrange(4, 8);
            let data = rest.subrange(8, 8 + len);
            let stored = be32_val(rest.subrange(8 + len, 12 + len));
            if stored != crc32_of(kind + data) {
                Err(FormatError::CrcMismatch)
            } else {
                Ok((ChunkModel { kind, data }, 12 + len))
            }
        }
    }
}

/// Parses chunks from `rest` until the terminator chunk is consumed
/// (inclusive); bytes after the terminator are ignored.
pub open spec fn spec_parse_chunks(rest: Seq<u8>) -> Result<Seq<ChunkModel>, FormatError>
    decreases rest.len(),
{
    match spec_parse_chunk(rest) {
        Err(e) => Err(e),
        Ok(p) => {
            if p.0.kind == iend_kind() {
                Ok(seq![p.0])
            } else {
                match spec_parse_chunks(rest.skip(p.1)) {
                    Ok(cs) => Ok(seq![p.0] + cs),
                    Err(e) => Err(e),
                }
            }
        },
    }
}

/// Decoding a whole file: the signature must be present, then chunks follow.
pub open spec fn spec_decode(bytes: Seq<u8>) -> Result<Seq<ChunkModel>, FormatError> {
    if bytes.len() < 8 || bytes.subrange(0, 8) != png_signature() {
        Err(FormatError::BadSignature)
    } else {
        spec_parse_chunks(bytes.skip(8))
    }
}

/// A chunk sequence the encoder can write and the decoder can fully read
/// back: every chunk is representable, the terminator chunk comes last, and
/// only last.
pub open spec fn wf_chunks(cs: Seq<ChunkModel>) -> bool {
    &&& cs.len() >= 1
    &&& forall|i: int| 0 <= i < cs.len() ==> wf_chunk(#[trigger] cs[i])
    &&& cs[cs.len() - 1].kind == iend_kind()
    &&& forall|i: int| 0 <= i < cs.len() - 1 ==> (#[trigger] cs[i]).kind != iend_kind()
}

/// Parsing bytes that begin with one encoded chunk yields that chunk.
proof fn lemma_parse_one(c: ChunkModel, tail: Seq<u8>)
    requires
        wf_chunk(c),
    ensures
        spec_parse_chunk(spec_encode_chunk(c) + tail) == Ok::<(ChunkModel, int), FormatError>(
            (c, 12 + c.data.len() as int),
        ),
{
    let len = c.data.len() as int;
    let total = spec_encode_chunk(c) + tail;
    assert(total.len() == 12 + len + tail.len());
    assert(total.subrange(0, 4) =~= be32(c.data.len() as u32));
    lemma_be32_roundtrip(c.data.len() as u32);
    assert(be32_val(total.subrange(0, 4)) as int == len);
    assert(total.subrange(4, 8) =~= c.kind);
    assert(total.subrange(8, 8 + len) =~= c.data);
    assert(total.subrange(8 + len, 12 + len) =~= be32(crc32_of(c.kind + c.data)));
    lemma_be32_roundtrip(crc32_of(c.kind + c.data));
    assert(spec_parse_chunk(total) == Ok::<(ChunkModel, int), FormatError>(
        (ChunkModel { kind: c.kind, data: c.data }, 12 + len),
    ));
}

#[verifier::rlimit(100)]
#[verifier::spinoff_prover]
proof fn lemma_parse_encode_chunks(cs: Seq<ChunkModel>, trailing: Seq<u8>)
    requires
        wf_chunks(cs),
    ensures
        spec_parse_chunks(spec_encode_chunks(cs) + trailing) == Ok::<Seq<ChunkModel>, FormatError>(
            cs,
        ),
    decreases cs.len(),
{
    let c = cs[0];
    let enc = spec_encode_chunk(c);
    let rest_enc = spec_encode_chunks(cs.skip(1));
    let total = spec_encode_chunks(cs) + trailing;
    assert(wf_chunk(c));
    assert(spec_encode_chunks(cs) == enc + rest_enc);
    let len = c.data.len() as int;
    assert(total =~= enc + (rest_enc + trailing));
    lemma_parse_one(c, rest_enc + trailing);
    assert(spec_parse_chunk(total) == Ok::<(ChunkModel, int), FormatError>((c, 12 + len)));
    assert(enc.len() == 12 + len);
    if cs.len() == 1 {
        assert(c.kind == iend_kind());
        assert(seq![c] =~= cs);
    } else {
        assert(c.kind != iend_kind());
        assert(total.skip(12 + len) =~= rest_enc + trailing);
        lemma_wf_chunks_skip(cs);
        lemma_parse_encode_chunks(cs.skip(1), trailing);
        assert(seq![c] + cs.skip(1) =~= cs);
    }
}

proof fn lemma_wf_chunks_skip(cs: Seq<ChunkModel>)
    requires
        wf_chunks(cs),
        cs.len() > 1,
    ensures
        wf_chunks(cs.skip(1)),
{
    assert forall|i: int| 0 <= i < cs.skip(1).len() implies wf_chunk(#[trigger] cs.skip(1)[i]) by {
        assert(cs.skip(1)[i] == cs[i + 1]);
    }
    assert(cs.skip(1)[cs.skip(1).len() - 1] == cs[cs.len() - 1]);
    assert forall|i: int| 0 <= i < cs.skip(1).len() - 1 implies (#[trigger] cs.skip(1)[i]).kind
        != iend_kind() by {
        assert(cs.skip(1)[i] == cs[i + 1]);
    }
}

/// Round trip: decoding an encoded well-formed chunk sequence yields exactly
/// that sequence, even when arbitrary trailing bytes follow the terminator.
pub proof fn lemma_round_trip_trailing(cs: Seq<ChunkModel>, trailing: Seq<u8>)
    requires
        wf_chunks(cs),
    ensures
        spec_decode(spec_encode(cs) + trailing) == Ok::<Seq<ChunkModel>, FormatError>(cs),
{
    let bytes = spec_encode(cs) + trailing;
    assert(bytes.subrange(0, 8) =~= png_signature());
    assert(bytes.skip(8) =~= spec_encode_chunks(cs) + trailing);
    lemma_parse_encode_chunks(cs, trailing);
}

/// Round trip: `decode(encode(chunks)) == chunks` for any well-formed chunk
/// sequence.
pub proof fn lemma_round_trip(cs: Seq<ChunkModel>)
    requires
        wf_chunks(cs),
    ensures
        spec_decode(spec_encode(cs)) == Ok::<Seq<ChunkModel>, FormatError>(cs),
{
    assert(spec_encode(cs) + Seq::<u8>::empty() =~= spec_encode(cs));
    lemma_round_trip_trailing(cs, Seq::empty());
}

/// The wire bytes of chunk `c` with bit `k` of payload byte `i` flipped;
/// the stored checksum still covers the original payload.
pub open spec fn corrupt_chunk_bytes(c: ChunkModel, i: int, k: u32) -> Seq<u8> {
    be32(c.data.len() as u32) + c.kind + c.data.update(i, c.data[i] ^ (1u8 << k)) + be32(
        crc32_of(c.kind + c.data),
    )
}

/// An encoded chunk sequence with one payload bit of chunk `j` flipped.
pub open spec fn corrupt_encode_chunks(cs: Seq<ChunkModel>, j: int, i: int, k: u32) -> Seq<u8>
    decreases cs.len(),
{
    if cs.len() == 0 {
        Seq::empty()
    } else if j == 0 {
        corrupt_chunk_bytes(cs[0], i, k) + spec_encode_chunks(cs.skip(1))
    } else {
        spec_encode_chunk(cs[0]) + corrupt_encode_chunks(cs.skip(1), j - 1, i, k)
    }
}

/// A whole encoded file with one payload bit of chunk `j` flipped.
pub open spec fn corrupt_encode(cs: Seq<ChunkModel>, j: int, i: int, k: u32) -> Seq<u8> {
    png_signature() + corrupt_encode_chunks(cs, j, i, k)
}

#[verifier::rlimit(100)]
#[verifier::spinoff_prover]
proof fn lemma_parse_corrupt_chunk(c: ChunkModel, i: int, k: u32, tail: Seq<u8>)
    requires
        wf_chunk(c),
        0 <= i < c.data.len(),
        k < 8,
    ensures
        spec_parse_chunk(corrupt_chunk_bytes(c, i, k) + tail) == Err::<
            (ChunkModel, int),
            FormatError,
        >(FormatError::CrcMismatch),
{
    let data2 = c.data.update(i, c.data[i] ^ (1u8 << k));
    let total = corrupt_chunk_bytes(c, i, k) + tail;
    let len = c.data.len() as int;
    assert(data2.len() == len);
    assert(total.subrange(0, 4) =~= be32(c.data.len() as u32));
    lemma_be32_roundtrip(c.data.len() as u32);
    assert(be32_val(total.subrange(0, 4)) as int == len);
    assert(total.subrange(4, 8) =~= c.kind);
    assert(total.subrange(8, 8 + len) =~= data2);
    assert(total.subrange(8 + len, 12 + len) =~= be32(crc32_of(c.kind + c.data)));
    lemma_be32_roundtrip(crc32_of(c.kind + c.data));
    let t1 = c.kind + data2;
    let t2 = c.kind + c.data;
    let b = c.data[i];
    assert((b ^ (1u8 << k)) != b) by (bit_vector)
        requires
            k < 8,
    ;
    assert(t1[4 + i] != t2[4 + i]) by {
        assert(t1[4 + i] == data2[i]);
        assert(t2[4 + i] == c.data[i]);
    }
    assert forall|m: int| 0 <= m < t1.len() && m != 4 + i implies t1[m] == t2[m] by {
        if m >= 4 {
            assert(t1[m] == data2[m - 4]);
            assert(t2[m] == c.data[m - 4]);
        }
    }
    crate::crc::lemma_crc32_single_diff(t1, t2, 4 + i);
}

proof fn lemma_concat_skip(a: Seq<u8>, b: Seq<u8>)
    ensures
        (a + b).skip(a.len() as int) == b,
{
    assert((a + b).skip(a.len() as int) =~= b);
}

/// Parsing an encoded non-terminator chunk followed by anything parses the
/// chunk and continues on the rest.
#[verifier::spinoff_prover]
#[verifier::rlimit(100)]
proof fn lemma_parse_chunks_prefix(c: ChunkModel, rest: Seq<u8>)
    requires
        wf_chunk(c),
        c.kind != iend_kind(),
    ensures
        spec_parse_chunks(spec_encode_chunk(c) + rest) == (match spec_parse_chunks(rest) {
            Ok(cs) => Ok::<Seq<ChunkModel>, FormatError>(seq![c] + cs),
            Err(e) => Err(e),
        }),
{
    lemma_parse_one(c, rest);
    assert(spec_encode_chunk(c).len() == 12 + c.data.len());
    lemma_concat_skip(spec_encode_chunk(c), rest);
}

#[verifier::spinoff_prover]
proof fn lemma_parse_corrupt_chunks(cs: Seq<ChunkModel>, j: int, i: int, k: u32, trailing: Seq<u8>)
    requires
        wf_chunks(cs),
        0 <= j < cs.len(),
        0 <= i < cs[j].data.len(),
        k < 8,
    ensures
        spec_parse_chunks(corrupt_encode_chunks(cs, j, i, k) + trailing) == Err::<
            Seq<ChunkModel>,
            FormatError,
        >(FormatError::CrcMismatch),
    decreases j,
{
    if j == 0 {
        lemma_parse_corrupt_chunk(cs[0], i, k, spec_encode_chunks(cs.skip(1)) + trailing);
        assert(corrupt_encode_chunks(cs, 0, i, k) + trailing =~= corrupt_chunk_bytes(cs[0], i, k)
            + (spec_encode_chunks(cs.skip(1)) + trailing));
    } else {
        let c = cs[0];
        let rest_corrupt = corrupt_encode_chunks(cs.skip(1), j - 1, i, k);
        assert(wf_chunk(c));
        assert(c.kind != iend_kind());
        lemma_wf_chunks_skip(cs);
        assert(cs.skip(1)[j - 1] == cs[j]);
        lemma_parse_corrupt_chunks(cs.skip(1), j - 1, i, k, trailing);
        lemma_parse_chunks_prefix(c, rest_corrupt + trailing);
        assert(corrupt_encode_chunks(cs, j, i, k) + trailing =~= spec_encode_chunk(c) + (
        rest_corrupt + trailing));
    }
}

/// CRC gate: flipping any single bit of any chunk's payload in an encoded
/// file makes decoding fail with a CRC mismatch.
pub proof fn lemma_bit_flip_rejected(cs: Seq<ChunkModel>, j: int, i: int, k: u32)
    requires
        wf_chunks(cs),
        0 <= j < cs.len(),
        0 <= i < cs[j].data.len(),
        k < 8,
    ensures
        spec_decode(corrupt_encode(cs, j, i, k)) == Err::<Seq<ChunkModel>, FormatError>(
            FormatError::CrcMismatch,
        ),
{
    let bytes = corrupt_encode(cs, j, i, k);
    assert(bytes.subrange(0, 8) =~= png_signature());
    assert(bytes.skip(8) =~= corrupt_encode_chunks(cs, j, i, k) + Seq::<u8>::empty());
    lemma_parse_corrupt_chunks(cs, j, i, k, Seq::empty());
}

/// Where chunk `j` begins within the encoded chunk stream.
pub open spec fn chunk_start(cs: Seq<ChunkModel>, j: int) -> int
    decreases j,
{
    if j <= 0 {
        0
    } else {
        spec_encode_chunk(cs[0]).len() + chunk_start(cs.skip(1), j - 1)
    }
}

/// Where byte `i` of chunk `j`'s payload sits in the whole encoded file:
/// behind the signature, the chunks before `j`, and chunk `j`'s length and
/// tag fields.
pub open spec fn payload_pos(cs: Seq<ChunkModel>, j: int, i: int) -> int {
    8 + chunk_start(cs, j) + 8 + i
}

proof fn lemma_update_concat_left(a: Seq<u8>, b: Seq<u8>, p: int, v: u8)
    requires
        0 <= p < a.len(),
    ensures
        a.update(p, v) + b == (a + b).update(p, v),
{
    assert(a.update(p, v) + b =~= (a + b).update(p, v));
}

proof fn lemma_update_concat_right(a: Seq<u8>, b: Seq<u8>, p: int, v: u8)
    requires
        0 <= p < b.len(),
    ensures
        a + b.update(p, v) == (a + b).update(a.len() + p, v),
{
    assert(a + b.update(p, v) =~= (a + b).update(a.len() + p, v));
}

proof fn lemma_corrupt_chunk_is_update(c: ChunkModel, i: int, k: u32)
    requires
        wf_chunk(c),
        0 <= i < c.data.len(),
    ensures
        corrupt_chunk_bytes(c, i, k) == spec_encode_chunk(c).update(8 + i, c.data[i] ^ (1u8 << k)),
{
    assert(corrupt_chunk_bytes(c, i, k) =~= spec_encode_chunk(c).update(
        8 + i,
        c.data[i] ^ (1u8 << k),
    ));
}

proof fn lemma_corrupt_chunks_is_update(cs: Seq<ChunkModel>, j: int, i: int, k: u32)
    requires
        wf_chunks(cs),
        0 <= j < cs.len(),
        0 <= i < cs[j].data.len(),
        k < 8,
    ensures
        corrupt_encode_chunks(cs, j, i, k) == spec_encode_chunks(cs).update(
            chunk_start(cs, j) + 8 + i,
            cs[j].data[i] ^ (1u8 << k),
        ),
    decreases j,
{
    let v = cs[j].data[i] ^ (1u8 << k);
    if j == 0 {
        lemma_corrupt_chunk_is_update(cs[0], i, k);
        assert(spec_encode_chunk(cs[0]).len() == 12 + cs[0].data.len());
        lemma_update_concat_left(spec_encode_chunk(cs[0]), spec_encode_chunks(cs.skip(1)), 8 + i, v);
    } else {
        lemma_wf_chunks_skip(cs);
        assert(cs.skip(1)[j - 1] == cs[j]);
        lemma_corrupt_chunks_is_update(cs.skip(1), j - 1, i, k);
        let p = chunk_start(cs.skip(1), j - 1) + 8 + i;
        assert(0 <= p < spec_encode_chunks(cs.skip(1)).len()) by {
            lemma_chunk_start_bounds(cs.skip(1), j - 1);
        }
        lemma_update_concat_right(spec_encode_chunk(cs[0]), spec_encode_chunks(cs.skip(1)), p, v);
    }
}

proof fn lemma_chunk_start_bounds(cs: Seq<ChunkModel>, j: int)
    requires
        0 <= j < cs.len(),
        forall|m: int| 0 <= m < cs.len() ==> wf_chunk(#[trigger] cs[m]),
    ensures
        0 <= chunk_start(cs, j),
        chunk_start(cs, j) + spec_encode_chunk(cs[j]).len() <= spec_encode_chunks(cs).len(),
    decreases j,
{
    if j == 0 {
        assert(spec_encode_chunks(cs) == spec_encode_chunk(cs[0]) + spec_encode_chunks(cs.skip(1)));
    } else {
        assert forall|m: int| 0 <= m < cs.skip(1).len() implies wf_chunk(
            #[trigger] cs.skip(1)[m],
        ) by {
            assert(cs.skip(1)[m] == cs[m + 1]);
        }
        assert(cs.skip(1)[j - 1] == cs[j]);
        lemma_chunk_start_bounds(cs.skip(1), j - 1);
        assert(spec_encode_chunks(cs) == spec_encode_chunk(cs[0]) + spec_encode_chunks(cs.skip(1)));
    }
}

/// CRC gate, in byte terms: the encoded file of a well-formed chunk
/// sequence, with the single bit `k` of payload byte `i` of chunk `j`
/// flipped in place, no longer decodes — it fails with a CRC mismatch.
pub proof fn lemma_encoded_bit_flip_rejected(cs: Seq<ChunkModel>, j: int, i: int, k: u32)
    requires
        wf_chunks(cs),
        0 <= j < cs.len(),
        0 <= i < cs[j].data.len(),
        k < 8,
    ensures
        spec_decode(
            spec_encode(cs).update(payload_pos(cs, j, i), cs[j].data[i] ^ (1u8 << k)),
        ) == Err::<Seq<ChunkModel>, FormatError>(FormatError::CrcMismatch),
{
    let v = cs[j].data[i] ^ (1u8 << k);
    lemma_corrupt_chunks_is_update(cs, j, i, k);
    let p = chunk_start(cs, j) + 8 + i;
    assert(0 <= p < spec_encode_chunks(cs).len()) by {
        lemma_chunk_start_bounds(cs, j);
    }
    lemma_update_concat_right(png_signature(), spec_encode_chunks(cs), p, v);
    assert(corrupt_encode(cs, j, i, k) == spec_encode(cs).update(payload_pos(cs, j, i), v));
    lemma_bit_flip_rejected(cs, j, i, k);
}

/// Reads a big-endian 32-bit value at `offset`.
fn read_be32(bytes: &Vec<u8>, offset: usize) -> (r: u32)
    requires
        offset + 4 <= bytes@.len(),
    ensures
        r == be32_val(bytes@.subrange(offset as int, offset as int + 4)),
{
    let blen: usize = bytes.len();
    assert(offset + 4 <= blen);
    let b0: u8 = bytes[offset];
    let b1: u8 = bytes[offset + 1];
    let b2: u8 = bytes[offset + 2];
    let b3: u8 = bytes[offset + 3];
    let r: u32 = ((b0 as u32) << 24) | ((b1 as u32) << 16) | ((b2 as u32) << 8) | (b3 as u32);
    proof {
        let s = bytes@.subrange(offset as int, offset as int + 4);
        assert(s[0] == bytes@[offset as int] && s[1] == bytes@[offset as int + 1] && s[2]
            == bytes@[offset as int + 2] && s[3] == bytes@[offset as int + 3]);
    }
    r
}

/// Whether a 4-byte tag equals the given four bytes.
fn kind_is(k: &Vec<u8>, a: u8, b: u8, c: u8, d: u8) -> (r: bool)
    requires
        k@.len() == 4,
    ensures
        r == (k@ == seq![a, b, c, d]),
{
    let eq: bool = k[0] == a && k[1] == b && k[2] == c && k[3] == d;
    proof {
        if eq {
            assert(k@ =~= seq![a, b, c, d]);
        } else {
            assert(k@ == seq![a, b, c, d] ==> (k@[0] == a && k@[1] == b && k@[2] == c && k@[3]
                == d));
        }
    }
    eq
}

/// Parses the chunk that starts at `offset`, validating its checksum.
pub fn decode_chunk(crc: &CRC, bytes: &Vec<u8>, offset: usize) -> (r: Result<
    (Chunk, usize),
    FormatError,
>)
    requires
        crc.wf(),
        offset <= bytes@.len(),
    ensures
        match r {
            Ok(p) => {
                &&& spec_parse_chunk(bytes@.skip(offset as int)) == Ok::<
                    (ChunkModel, int),
                    FormatError,
                >((p.0@, p.1 as int))
                &&& 12 <= p.1
                &&& offset + p.1 <= bytes@.len()
                &&& wf_chunk(p.0@)
            },
            Err(e) => spec_parse_chunk(bytes@.skip(offset as int)) == Err::<
                (ChunkModel, int),
                FormatError,
            >(e),
        },
{
    let ghost rest = bytes@.skip(offset as int);
    let avail: usize = bytes.len() - offset;
    if avail < 12 {
        return Err(FormatError::Truncated);
    }
    let length: u32 = read_be32(bytes, offset);
    proof {
        assert(rest.subrange(0, 4) =~= bytes@.subrange(offset as int, offset as int + 4));
    }
    if (avail - 12) < length as usize {
        return Err(FormatError::Truncated);
    }
    let l: usize = length as usize;
    let kind: Vec<u8> = copy_range(bytes, offset + 4, 4);
    let data: Vec<u8> = copy_range(bytes, offset + 8, l);
    let stored: u32 = read_be32(bytes, offset + 8 + l);
    let mut tagged: Vec<u8> = Vec::new();
    extend(&mut tagged, &kind);
    extend(&mut tagged, &data);
    let computed: u32 = crc.crc(&tagged);
    proof {
        assert(rest.subrange(4, 8) =~= bytes@.subrange(offset as int + 4, offset as int + 8));
        assert(rest.subrange(8, 8 + l as int) =~= bytes@.subrange(
            offset as int + 8,
            offset as int + 8 + l as int,
        ));
        assert(rest.subrange(8 + l as int, 12 + l as int) =~= bytes@.subrange(
            offset as int + 8 + l as int,
            offset as int + 12 + l as int,
        ));
        assert(tagged@ =~= kind@ + data@);
    }
    if stored != computed {
        return Err(FormatError::CrcMismatch);
    }
    Ok((Chunk { kind, data }, 12 + l))
}

/// Lifts the view over a decode result.
pub open spec fn decode_result_view(r: Result<Vec<Chunk>, FormatError>) -> Result<
    Seq<ChunkModel>,
    FormatError,
> {
    match r {
        Ok(v) => Ok(views_of(v@)),
        Err(e) => Err(e),
    }
}

/// Prefixes a parse result with already-parsed chunks.
pub open spec fn parse_cont(
    prefix: Seq<ChunkModel>,
    r: Result<Seq<ChunkModel>, FormatError>,
) -> Result<Seq<ChunkModel>, FormatError> {
    match r {
        Ok(cs) => Ok(prefix + cs),
        Err(e) => Err(e),
    }
}

/// Decodes a whole file: signature check, then chunks until the terminator,
/// each chunk's checksum validated; trailing bytes after the terminator are
/// not an error.
pub fn decode(crc: &CRC, bytes: &Vec<u8>) -> (r: Result<Vec<Chunk>, FormatError>)
    requires
        crc.wf(),
    ensures
        decode_result_view(r) == spec_decode(bytes@),
{
    if bytes.len() < 8 {
        return Err(FormatError::BadSignature);
    }
    let sig_ok: bool = bytes[0] == 137 && bytes[1] == 80 && bytes[2] == 78 && bytes[3] == 71
        && bytes[4] == 13 && bytes[5] == 10 && bytes[6] == 26 && bytes[7] == 10;
    proof {
        if sig_ok {
            assert(bytes@.subrange(0, 8) =~= png_signature());
        } else {
            assert(bytes@.subrange(0, 8) == png_signature() ==> (bytes@[0] == 137 && bytes@[1]
                == 80 && bytes@[2] == 78 && bytes@[3] == 71 && bytes@[4] == 13 && bytes@[5] == 10
                && bytes@[6] == 26 && bytes@[7] == 10));
        }
    }
    if !sig_ok {
        return Err(FormatError::BadSignature);
    }
    let mut acc: Vec<Chunk> = Vec::new();
    let mut idx: usize = 8;
    proof {
        let x = spec_parse_chunks(bytes@.skip(8));
        assert(views_of(acc@) =~= Seq::<ChunkModel>::empty());
        match x {
            Ok(cs) => {
                assert(Seq::<ChunkModel>::empty() + cs =~= cs);
            },
            Err(_) => {},
        }
    }
    loop
        invariant
            crc.wf(),
            8 <= idx <= bytes@.len(),
            spec_decode(bytes@) == spec_parse_chunks(bytes@.skip(8)),
            spec_parse_chunks(bytes@.skip(8)) == parse_cont(
                views_of(acc@),
                spec_parse_chunks(bytes@.skip(idx as int)),
            ),
        decreases bytes@.len() - idx,
    {
        let parsed: Result<(Chunk, usize), FormatError> = decode_chunk(crc, bytes, idx);
        match parsed {
            Err(e) => {
                return Err(e);
            },
            Ok(p) => {
                let (c, used): (Chunk, usize) = p;
                let is_end: bool = kind_is(&c.kind, 73, 69, 78, 68);
                proof {
                    assert(seq![73u8, 69u8, 78u8, 68u8] =~= iend_kind());
                }
                if is_end {
                    proof {
                        let ghost old_acc = acc@;
                        assert(spec_parse_chunks(bytes@.skip(idx as int)) == Ok::<
                            Seq<ChunkModel>,
                            FormatError,
                        >(seq![c@]));
                        assert(views_of(old_acc.push(c)) =~= views_of(old_acc) + seq![c@]);
                    }
                    acc.push(c);
                    return Ok(acc);
                }
                proof {
                    let ghost old_acc = acc@;
                    let rest_idx = bytes@.skip(idx as int);
                    assert(rest_idx.skip(used as int) =~= bytes@.skip(idx as int + used as int));
                    assert(views_of(old_acc.push(c)) =~= views_of(old_acc) + seq![c@]);
                    let y = spec_parse_chunks(bytes@.skip(idx as int + used as int));
                    match y {
                        Ok(cs) => {
                            assert(views_of(old_acc) + (seq![c@] + cs) =~= (views_of(old_acc)
                                + seq![c@]) + cs);
                        },
                        Err(_) => {},
                    }
                }
                acc.push(c);
                let blen: usize = bytes.len();
                assert(idx + used <= blen);
                idx = idx + used;
            },
        }
    }
}

/// Whatever a successful parse yields is at least one chunk, all well-formed.
pub proof fn lemma_parse_chunks_wf(rest: Seq<u8>)
    ensures
        spec_parse_chunks(rest) matches Ok(cs) ==> cs.len() >= 1 && (forall|i: int|
            0 <= i < cs.len() ==> wf_chunk(#[trigger] cs[i])),
    decreases rest.len(),
{
    match spec_parse_chunk(rest) {
        Err(_) => {},
        Ok(p) => {
            assert(wf_chunk(p.0));
            if p.0.kind == iend_kind() {
            } else {
                lemma_parse_chunks_wf(rest.skip(p.1));
                match spec_parse_chunks(rest.skip(p.1)) {
                    Ok(cs2) => {
                        assert forall|i: int| 0 <= i < (seq![p.0] + cs2).len() implies wf_chunk(
                            #[trigger] (seq![p.0] + cs2)[i],
                        ) by {
                            if i > 0 {
                                assert((seq![p.0] + cs2)[i] == cs2[i - 1]);
                            }
                        }
                    },
                    Err(_) => {},
                }
            }
        },
    }
}

/// Whatever a successful decode yields is at least one chunk, all well-formed.
pub proof fn lemma_decode_wf(bytes: Seq<u8>)
    ensures
        spec_decode(bytes) matches Ok(cs) ==> cs.len() >= 1 && (forall|i: int|
            0 <= i < cs.len() ==> wf_chunk(#[trigger] cs[i])),
{
    if bytes.len() < 8 || bytes.subrange(0, 8) != png_signature() {
    } else {
        lemma_parse_chunks_wf(bytes.skip(8));
    }
}

#[derive(Clone, Copy, Debug, PartialEq, Eq, Structural)]
pub enum ValidationError {
    /// The keyword is empty.
    EmptyKeyword,
    /// The keyword is longer than 79 bytes.
    KeywordTooLong,
    /// The keyword contains a NUL byte.
    KeywordHasNul,
    /// The text contains a NUL byte.
    TextHasNul,
    /// The text is empty after line-ending normalization.
    EmptyText,
}

/// Line-ending normalization: every CRLF pair becomes a single LF.
pub open spec fn normalize_newlines(s: Seq<u8>) -> Seq<u8>
    decreases s.len(),
{
    if s.len() == 0 {
        Seq::empty()
    } else if s.len() >= 2 && s[0] == 13 && s[1] == 10 {
        seq![10u8] + normalize_newlines(s.skip(2))
    } else {
        seq![s[0]] + normalize_newlines(s.skip(1))
    }
}

/// A text-chunk keyword: non-empty, at most 79 bytes, no NUL.
pub open spec fn valid_keyword(k: Seq<u8>) -> bool {
    &&& 1 <= k.len() <= 79
    &&& !k.contains(0u8)
}

/// A text-chunk value: no NUL, and non-empty once line endings are normalized.
pub open spec fn valid_text(t: Seq<u8>) -> bool {
    &&& !t.contains(0u8)
    &&& normalize_newlines(t).len() > 0
}

/// Payload layout of a text chunk: keyword, NUL separator, normalized text.
pub open spec fn text_payload(k: Seq<u8>, t: Seq<u8>) -> Seq<u8> {
    k + seq![0u8] + normalize_newlines(t)
}

/// The first validation rule that a keyword/text pair breaks, in the order
/// the checks are made.
pub open spec fn text_chunk_error(k: Seq<u8>, t: Seq<u8>) -> ValidationError {
    if k.len() == 0 {
        ValidationError::EmptyKeyword
    } else if k.len() > 79 {
        ValidationError::KeywordTooLong
    } else if k.contains(0u8) {
        ValidationError::KeywordHasNul
    } else if t.contains(0u8) {
        ValidationError::TextHasNul
    } else {
        ValidationError::EmptyText
    }
}

/// Normalization never lengthens the text, and never empties a non-empty one.
pub proof fn lemma_normalize_len(s: Seq<u8>)
    ensures
        normalize_newlines(s).len() <= s.len(),
        s.len() > 0 ==> normalize_newlines(s).len() >= 1,
    decreases s.len(),
{
    if s.len() == 0 {
    } else if s.len() >= 2 && s[0] == 13 && s[1] == 10 {
        lemma_normalize_len(s.skip(2));
    } else {
        lemma_normalize_len(s.skip(1));
    }
}

/// Text without a CR byte is left unchanged by normalization.
pub proof fn lemma_normalize_no_cr(s: Seq<u8>)
    requires
        !s.contains(13u8),
    ensures
        normalize_newlines(s) == s,
    decreases s.len(),
{
    if s.len() == 0 {
        assert(normalize_newlines(s) =~= s);
    } else {
        assert(s[0] != 13);
        assert(!s.skip(1).contains(13u8)) by {
            if s.skip(1).contains(13u8) {
                let i = choose|i: int| 0 <= i < s.skip(1).len() && s.skip(1)[i] == 13u8;
                assert(s[i + 1] == 13u8);
            }
        }
        lemma_normalize_no_cr(s.skip(1));
        assert(seq![s[0]] + s.skip(1) =~= s);
    }
}

/// Whether the vector holds a NUL byte.
fn contains_nul(v: &Vec<u8>) -> (r: bool)
    ensures
        r == v@.contains(0u8),
{
    let mut i: usize = 0;
    while i < v.len()
        invariant
            i <= v@.len(),
            forall|j: int| 0 <= j < i ==> v@[j] != 0u8,
        decreases v@.len() - i,
    {
        if v[i] == 0 {
            assert(v@[i as int] == 0u8);
            assert(v@.contains(0u8));
            return true;
        }
        i = i + 1;
    }
    assert(!v@.contains(0u8));
    false
}

/// Replaces every CRLF with LF, mirroring `normalize_newlines`.
fn normalize_text(text: &Vec<u8>) -> (r: Vec<u8>)
    ensures
        r@ == normalize_newlines(text@),
{
    let mut out: Vec<u8> = Vec::new();
    let mut i: usize = 0;
    proof {
        assert(text@.skip(0) =~= text@);
        assert(Seq::<u8>::empty() + normalize_newlines(text@) =~= normalize_newlines(text@));
    }
    while i < text.len()
        invariant
            i <= text@.len(),
            normalize_newlines(text@) == out@ + normalize_newlines(text@.skip(i as int)),
        decreases text@.len() - i,
    {
        let ghost out0 = out@;
        let ghost s = text@.skip(i as int);
        if text[i] == 13 && i + 1 < text.len() && text[i + 1] == 10 {
            out.push(10);
            proof {
                assert(s[0] == 13u8 && s.len() >= 2 && s[1] == 10u8);
                assert(s.skip(2) =~= text@.skip(i as int + 2));
                assert(out0 + (seq![10u8] + normalize_newlines(text@.skip(i as int + 2))) =~= (out0
                    + seq![10u8]) + normalize_newlines(text@.skip(i as int + 2)));
                assert(out@ =~= out0 + seq![10u8]);
            }
            i = i + 2;
        } else {
            out.push(text[i]);
            proof {
                assert(s[0] == text@[i as int]);
                assert(s.skip(1) =~= text@.skip(i as int + 1));
                assert(out0 + (seq![s[0]] + normalize_newlines(text@.skip(i as int + 1))) =~= (out0
                    + seq![s[0]]) + normalize_newlines(text@.skip(i as int + 1)));
                assert(out@ =~= out0 + seq![s[0]]);
            }
            i = i + 1;
        }
    }
    assert(text@.skip(text@.len() as int) =~= Seq::<u8>::empty());
    assert(out@ + Seq::<u8>::empty() =~= out@);
    out
}

/// Builds the payload of a text chunk: validated keyword, NUL separator,
/// normalized text.
pub fn text_chunk(keyword: &Vec<u8>, text: &Vec<u8>) -> (r: Result<Vec<u8>, ValidationError>)
    ensures
        match r {
            Ok(payload) => {
                &&& valid_keyword(keyword@)
                &&& valid_text(text@)
                &&& payload@ == text_payload(keyword@, text@)
            },
            Err(e) => {
                &&& !(valid_keyword(keyword@) && valid_text(text@))
                &&& e == text_chunk_error(keyword@, text@)
            },
        },
{
    if keyword.len() == 0 {
        return Err(ValidationError::EmptyKeyword);
    }
    if keyword.len() > 79 {
        return Err(ValidationError::KeywordTooLong);
    }
    if contains_nul(keyword) {
        return Err(ValidationError::KeywordHasNul);
    }
    if contains_nul(text) {
        return Err(ValidationError::TextHasNul);
    }
    let normalized: Vec<u8> = normalize_text(text);
    if normalized.len() == 0 {
        return Err(ValidationError::EmptyText);
    }
    let mut payload: Vec<u8> = Vec::new();
    extend(&mut payload, keyword);
    payload.push(0);
    extend(&mut payload, &normalized);
    assert(payload@ =~= text_payload(keyword@, text@));
    Ok(payload)
}

/// Builds a whole text chunk ("tEXt" tag plus payload) from a keyword and a
/// text value.
pub fn make_text_chunk(keyword: &Vec<u8>, text: &Vec<u8>) -> (r: Result<Chunk, ValidationError>)
    requires
        keyword@.len() + text@.len() + 1 <= 0xffffffff,
    ensures
        match r {
            Ok(c) => {
                &&& valid_keyword(keyword@)
                &&& valid_text(text@)
                &&& c@.kind == text_kind()
                &&& c@.data == text_payload(keyword@, text@)
                &&& wf_chunk(c@)
            },
            Err(e) => {
                &&& !(valid_keyword(keyword@) && valid_text(text@))
                &&& e == text_chunk_error(keyword@, text@)
            },
        },
{
    let payload: Vec<u8> = match text_chunk(keyword, text) {
        Ok(p) => p,
        Err(e) => {
            return Err(e);
        },
    };
    let mut kind: Vec<u8> = Vec::new();
    kind.push(116);
    kind.push(69);
    kind.push(88);
    kind.push(116);
    assert(kind@ =~= text_kind());
    proof {
        lemma_normalize_len(text@);
    }
    Ok(Chunk { kind, data: payload })
}

} // verus!
