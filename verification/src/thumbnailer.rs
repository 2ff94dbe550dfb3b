//! The thumbnail pipeline's computational core: size classes, cache-key
//! derivation, destination paths, and injection of provenance metadata into
//! a freshly encoded pixel PNG.

use vstd::prelude::*;
use crate::crc::CRC;
use crate::png::{
    lemma_normalize_len, lemma_normalize_no_cr, make_text_chunk, normalize_newlines, spec_decode,
    spec_encode, text_kind, text_payload, valid_keyword, valid_text, views_of, wf_chunk, Chunk,
    ChunkModel, FormatError,
};
use crate::png;
use crate::uri::{
    basename, digest_hex_of, file_prefix, hex_encode, md5_digest, percent_encode, uri_of,
    valid_source_path,
};
use crate::util::extend;

verus! {

/// A size class: the fixed maximum edge and cache subdirectory of a thumbnail.
#[derive(Clone, Copy, Debug, PartialEq, Eq, Structural)]
pub enum ThumbSize {
    Normal,
    Large,
}

/// The cache subdirectory name of a size class, as bytes.
pub open spec fn size_dir(s: ThumbSize) -> Seq<u8> {
    match s {
        ThumbSize::Normal => seq![110u8, 111u8, 114u8, 109u8, 97u8, 108u8],  // "normal"
        ThumbSize::Large => seq![108u8, 97u8, 114u8, 103u8, 101u8],  // "large"
    }
}

impl ThumbSize {
    /// The maximum edge in pixels of this size class.
    pub fn size(&self) -> (r: u32)
        ensures
            r == match *self {
                ThumbSize::Normal => 128u32,
                ThumbSize::Large => 256u32,
            },
    {
        match self {
            ThumbSize::Normal => 128,
            ThumbSize::Large => 256,
        }
    }

    /// The cache subdirectory name of this size class.
    pub fn name(&self) -> (r: &'static str)
        ensures
            r@ == match *self {
                ThumbSize::Normal => "normal"@,
                ThumbSize::Large => "large"@,
            },
    {
        match self {
            ThumbSize::Normal => "normal",
            ThumbSize::Large => "large",
        }
    }

    /// The cache subdirectory name of this size class, as bytes.
    pub fn dir_name(&self) -> (r: Vec<u8>)
        ensures
            r@ == size_dir(*self),
    {
        let mut r: Vec<u8> = Vec::new();
        match self {
            ThumbSize::Normal => {
                r.push(110);
                r.push(111);
                r.push(114);
                r.push(109);
                r.push(97);
                r.push(108);
            },
            ThumbSize::Large => {
                r.push(108);
                r.push(97);
                r.push(114);
                r.push(103);
                r.push(101);
            },
        }
        assert(r@ =~= size_dir(*self));
        r
    }
}

/// Why a job failed, by pipeline stage.
#[derive(Clone, Copy, Debug, PartialEq, Eq, Structural)]
pub enum ThumbError {
    /// The source path is not a canonical absolute path.
    InvalidInput,
    /// The pixel PNG could not be re-read at the chunk level.
    Format(FormatError),
    /// The resized bitmap has a zero dimension.
    DegenerateImage,
    /// The source image's format could not be recognized.
    UnsupportedFormat,
    /// The source image could not be decoded.
    DecodeError,
    /// A filesystem operation failed.
    IoError,
}

/// The ".png" suffix.
pub open spec fn png_ext() -> Seq<u8> {
    seq![46u8, 112u8, 110u8, 103u8]
}

/// The ".tmp" suffix.
pub open spec fn tmp_ext() -> Seq<u8> {
    seq![46u8, 116u8, 109u8, 112u8]
}

/// The digest filename of a path under a mode: lowercase hex MD5, ".png".
pub open spec fn filename_of(p: Seq<u8>, use_full_path: bool) -> Seq<u8> {
    digest_hex_of(p, use_full_path) + png_ext()
}

/// The destination of a thumbnail: cache root, size directory, digest filename.
pub open spec fn destination_of(cache: Seq<u8>, size: ThumbSize, filename: Seq<u8>) -> Seq<u8> {
    cache + seq![47u8] + size_dir(size) + seq![47u8] + filename
}

/// A job's evolving state: the paths and key of one (source, size) pair.
pub struct Thumbnailer {
    pub source_path: Vec<u8>,
    pub cache_path: Vec<u8>,
    pub destination_path: Vec<u8>,
    pub thumbnail_size: ThumbSize,
    pub filename: Vec<u8>,
    pub use_full_path_for_md5: bool,
}

impl Thumbnailer {
    /// The URI of a canonical absolute source path under the given mode.
    pub fn calculate_path_uri(use_full_path_for_md5: bool, path: &Vec<u8>) -> (r: Vec<u8>)
        requires
            valid_source_path(path@),
        ensures
            r@ == uri_of(path@, use_full_path_for_md5),
    {
        if use_full_path_for_md5 {
            let mut r: Vec<u8> = Vec::new();
            r.push(102);
            r.push(105);
            r.push(108);
            r.push(101);
            r.push(58);
            r.push(47);
            r.push(47);
            assert(r@ =~= file_prefix());
            let encoded: Vec<u8> = percent_encode(path);
            extend(&mut r, &encoded);
            r
        } else {
            let base: Vec<u8> = basename(path);
            percent_encode(&base)
        }
    }

    /// The lowercase hex MD5 digest of the URI the path derives.
    pub fn calculate_path_md5(use_full_path_for_md5: bool, path: &Vec<u8>) -> (r: Vec<u8>)
        requires
            valid_source_path(path@),
        ensures
            r@ == digest_hex_of(path@, use_full_path_for_md5),
    {
        let uri: Vec<u8> = Self::calculate_path_uri(use_full_path_for_md5, path);
        let digest: Vec<u8> = md5_digest(&uri);
        hex_encode(&digest)
    }

    /// Fills in the digest filename derived from the source path.
    pub fn calculate_filename(self) -> (r: Thumbnailer)
        requires
            valid_source_path(self.source_path@),
        ensures
            r.filename@ == filename_of(self.source_path@, self.use_full_path_for_md5),
            r.source_path@ == self.source_path@,
            r.cache_path@ == self.cache_path@,
            r.destination_path@ == self.destination_path@,
            r.thumbnail_size == self.thumbnail_size,
            r.use_full_path_for_md5 == self.use_full_path_for_md5,
    {
        let mut filename: Vec<u8> = Self::calculate_path_md5(
            self.use_full_path_for_md5,
            &self.source_path,
        );
        filename.push(46);
        filename.push(112);
        filename.push(110);
        filename.push(103);
        assert(filename@ =~= filename_of(self.source_path@, self.use_full_path_for_md5));
        Thumbnailer { filename, ..self }
    }

    /// Fills in the destination path: cache root, size directory, filename.
    pub fn calculate_destination(self) -> (r: Thumbnailer)
        ensures
            r.destination_path@ == destination_of(
                self.cache_path@,
                self.thumbnail_size,
                self.filename@,
            ),
            r.source_path@ == self.source_path@,
            r.cache_path@ == self.cache_path@,
            r.filename@ == self.filename@,
            r.thumbnail_size == self.thumbnail_size,
            r.use_full_path_for_md5 == self.use_full_path_for_md5,
    {
        let mut destination_path: Vec<u8> = Vec::new();
        extend(&mut destination_path, &self.cache_path);
        destination_path.push(47);
        let dir: Vec<u8> = self.thumbnail_size.dir_name();
        extend(&mut destination_path, &dir);
        destination_path.push(47);
        extend(&mut destination_path, &self.filename);
        assert(destination_path@ =~= destination_of(
            self.cache_path@,
            self.thumbnail_size,
            self.filename@,
        ));
        Thumbnailer { destination_path, ..self }
    }
}

/// Whether the bytes form a canonical absolute path below the root.
pub fn is_valid_source_path(path: &Vec<u8>) -> (r: bool)
    ensures
        r == valid_source_path(path@),
{
    if path.len() < 2 {
        return false;
    }
    if path[0] != 47 {
        return false;
    }
    if path[path.len() - 1] == 47 {
        return false;
    }
    let mut i: usize = 1;
    while i < path.len()
        invariant
            1 <= i <= path@.len(),
            forall|j: int| 1 <= j < i && path@[j - 1] == 47u8 ==> (#[trigger] path@[j]) != 47u8,
        decreases path@.len() - i,
    {
        if path[i - 1] == 47 && path[i] == 47 {
            return false;
        }
        i = i + 1;
    }
    true
}

/// Derives the cache key of a source path: the URI under the given mode and
/// the digest filename, or `InvalidInput` for a path that is not canonical
/// and absolute.
pub fn derive(use_full_path_for_md5: bool, path: &Vec<u8>) -> (r: Result<
    (Vec<u8>, Vec<u8>),
    ThumbError,
>)
    ensures
        match r {
            Ok(p) => {
                &&& valid_source_path(path@)
                &&& p.0@ == uri_of(path@, use_full_path_for_md5)
                &&& p.1@ == filename_of(path@, use_full_path_for_md5)
            },
            Err(e) => {
                &&& !valid_source_path(path@)
                &&& e == ThumbError::InvalidInput
            },
        },
{
    if !is_valid_source_path(path) {
        return Err(ThumbError::InvalidInput);
    }
    let uri: Vec<u8> = Thumbnailer::calculate_path_uri(use_full_path_for_md5, path);
    let mut filename: Vec<u8> = Thumbnailer::calculate_path_md5(use_full_path_for_md5, path);
    filename.push(46);
    filename.push(112);
    filename.push(110);
    filename.push(103);
    assert(filename@ =~= filename_of(path@, use_full_path_for_md5));
    Ok((uri, filename))
}

/// The cache key a path derives under a mode: the URI and the digest
/// filename, as `derive` returns them.
pub open spec fn derived_key(p: Seq<u8>, use_full_path: bool) -> (Seq<u8>, Seq<u8>) {
    (uri_of(p, use_full_path), filename_of(p, use_full_path))
}

/// Determinism: the URI and the digest filename are functions of the path
/// and the mode alone, so any two keys derived for the same path and mode —
/// by the same worker or by two racing ones — are identical.
pub proof fn lemma_derive_deterministic(
    p: Seq<u8>,
    use_full_path: bool,
    first: (Seq<u8>, Seq<u8>),
    second: (Seq<u8>, Seq<u8>),
)
    requires
        first == derived_key(p, use_full_path),
        second == derived_key(p, use_full_path),
    ensures
        first == second,
{
}

/// The two modes derive different keys for every valid source path: the
/// URIs differ, so the derived pairs differ.
pub proof fn lemma_derive_modes_differ(p: Seq<u8>)
    requires
        valid_source_path(p),
    ensures
        uri_of(p, true) != uri_of(p, false),
        derived_key(p, true) != derived_key(p, false),
{
    crate::uri::lemma_uri_modes_differ(p);
}

/// Rejects a resized bitmap with a zero dimension.
pub fn validate_dimensions(width: u32, height: u32) -> (r: Result<(), ThumbError>)
    ensures
        match r {
            Ok(_) => width > 0 && height > 0,
            Err(e) => (width == 0 || height == 0) && e == ThumbError::DegenerateImage,
        },
{
    if width == 0 || height == 0 {
        Err(ThumbError::DegenerateImage)
    } else {
        Ok(())
    }
}

/// The temp path a destination absorbs partial writes at: the destination
/// with ".tmp" appended.
pub fn temp_path(destination: &Vec<u8>) -> (r: Vec<u8>)
    ensures
        r@ == destination@ + tmp_ext(),
{
    let mut r: Vec<u8> = Vec::new();
    extend(&mut r, destination);
    r.push(46);
    r.push(116);
    r.push(109);
    r.push(112);
    assert(r@ =~= destination@ + tmp_ext());
    r
}

/// The decimal digits of `n`, most significant first.
pub open spec fn dec_of(n: nat) -> Seq<u8>
    decreases n,
{
    if n < 10 {
        seq![(48 + n) as u8]
    } else {
        dec_of(n / 10) + seq![(48 + n % 10) as u8]
    }
}

/// Decimal digits are non-empty and drawn from '0'..'9'.
pub proof fn lemma_dec_of_digits(n: nat)
    ensures
        dec_of(n).len() >= 1,
        forall|i: int| 0 <= i < dec_of(n).len() ==> 48 <= #[trigger] dec_of(n)[i] <= 57,
    decreases n,
{
    if n < 10 {
    } else {
        lemma_dec_of_digits(n / 10);
        assert forall|i: int| 0 <= i < dec_of(n).len() implies 48 <= #[trigger] dec_of(n)[i]
            <= 57 by {
            if i < dec_of(n / 10).len() {
                assert(dec_of(n)[i] == dec_of(n / 10)[i]);
            }
        }
    }
}

/// Writes `n` in decimal.
pub fn u64_to_dec(n: u64) -> (r: Vec<u8>)
    ensures
        r@ == dec_of(n as nat),
    decreases n,
{
    if n < 10 {
        let mut r: Vec<u8> = Vec::new();
        r.push(48 + n as u8);
        assert(r@ =~= dec_of(n as nat));
        r
    } else {
        let mut r: Vec<u8> = u64_to_dec(n / 10);
        r.push(48 + (n % 10) as u8);
        assert(r@ =~= dec_of((n / 10) as nat) + seq![(48 + (n as nat) % 10) as u8]);
        r
    }
}

/// The "Thumb::URI" keyword.
pub open spec fn kw_uri() -> Seq<u8> {
    seq![84u8, 104u8, 117u8, 109u8, 98u8, 58u8, 58u8, 85u8, 82u8, 73u8]
}

/// The "Thumb::MTime" keyword.
pub open spec fn kw_mtime() -> Seq<u8> {
    seq![84u8, 104u8, 117u8, 109u8, 98u8, 58u8, 58u8, 77u8, 84u8, 105u8, 109u8, 101u8]
}

/// The "Thumb::Size" keyword.
pub open spec fn kw_size() -> Seq<u8> {
    seq![84u8, 104u8, 117u8, 109u8, 98u8, 58u8, 58u8, 83u8, 105u8, 122u8, 101u8]
}

/// The "Thumb::Image::Width" keyword.
pub open spec fn kw_width() -> Seq<u8> {
    seq![
        84u8,
        104u8,
        117u8,
        109u8,
        98u8,
        58u8,
        58u8,
        73u8,
        109u8,
        97u8,
        103u8,
        101u8,
        58u8,
        58u8,
        87u8,
        105u8,
        100u8,
        116u8,
        104u8,
    ]
}

/// The "Thumb::Image::Height" keyword.
pub open spec fn kw_height() -> Seq<u8> {
    seq![
        84u8,
        104u8,
        117u8,
        109u8,
        98u8,
        58u8,
        58u8,
        73u8,
        109u8,
        97u8,
        103u8,
        101u8,
        58u8,
        58u8,
        72u8,
        101u8,
        105u8,
        103u8,
        104u8,
        116u8,
    ]
}

fn kw_uri_vec() -> (r: Vec<u8>)
    ensures
        r@ == kw_uri(),
{
    let mut r: Vec<u8> = Vec::new();
    r.push(84);
    r.push(104);
    r.push(117);
    r.push(109);
    r.push(98);
    r.push(58);
    r.push(58);
    r.push(85);
    r.push(82);
    r.push(73);
    assert(r@ =~= kw_uri());
    r
}

fn kw_mtime_vec() -> (r: Vec<u8>)
    ensures
        r@ == kw_mtime(),
{
    let mut r: Vec<u8> = Vec::new();
    r.push(84);
    r.push(104);
    r.push(117);
    r.push(109);
    r.push(98);
    r.push(58);
    r.push(58);
    r.push(77);
    r.push(84);
    r.push(105);
    r.push(109);
    r.push(101);
    assert(r@ =~= kw_mtime());
    r
}

fn kw_size_vec() -> (r: Vec<u8>)
    ensures
        r@ == kw_size(),
{
    let mut r: Vec<u8> = Vec::new();
    r.push(84);
    r.push(104);
    r.push(117);
    r.push(109);
    r.push(98);
    r.push(58);
    r.push(58);
    r.push(83);
    r.push(105);
    r.push(122);
    r.push(101);
    assert(r@ =~= kw_size());
    r
}

fn kw_width_vec() -> (r: Vec<u8>)
    ensures
        r@ == kw_width(),
{
    let mut r: Vec<u8> = Vec::new();
    r.push(84);
    r.push(104);
    r.push(117);
    r.push(109);
    r.push(98);
    r.push(58);
    r.push(58);
    r.push(73);
    r.push(109);
    r.push(97);
    r.push(103);
    r.push(101);
    r.push(58);
    r.push(58);
    r.push(87);
    r.push(105);
    r.push(100);
    r.push(116);
    r.push(104);
    assert(r@ =~= kw_width());
    r
}

fn kw_height_vec() -> (r: Vec<u8>)
    ensures
        r@ == kw_height(),
{
    let mut r: Vec<u8> = Vec::new();
    r.push(84);
    r.push(104);
    r.push(117);
    r.push(109);
    r.push(98);
    r.push(58);
    r.push(58);
    r.push(73);
    r.push(109);
    r.push(97);
    r.push(103);
    r.push(101);
    r.push(58);
    r.push(58);
    r.push(72);
    r.push(101);
    r.push(105);
    r.push(103);
    r.push(104);
    r.push(116);
    assert(r@ =~= kw_height());
    r
}

proof fn lemma_keywords_valid()
    ensures
        valid_keyword(kw_uri()),
        valid_keyword(kw_mtime()),
        valid_keyword(kw_size()),
        valid_keyword(kw_width()),
        valid_keyword(kw_height()),
{
    assert(!kw_uri().contains(0u8)) by {
        if kw_uri().contains(0u8) {
            let i = choose|i: int| 0 <= i < kw_uri().len() && kw_uri()[i] == 0u8;
        }
    }
    assert(!kw_mtime().contains(0u8)) by {
        if kw_mtime().contains(0u8) {
            let i = choose|i: int| 0 <= i < kw_mtime().len() && kw_mtime()[i] == 0u8;
        }
    }
    assert(!kw_size().contains(0u8)) by {
        if kw_size().contains(0u8) {
            let i = choose|i: int| 0 <= i < kw_size().len() && kw_size()[i] == 0u8;
        }
    }
    assert(!kw_width().contains(0u8)) by {
        if kw_width().contains(0u8) {
            let i = choose|i: int| 0 <= i < kw_width().len() && kw_width()[i] == 0u8;
        }
    }
    assert(!kw_height().contains(0u8)) by {
        if kw_height().contains(0u8) {
            let i = choose|i: int| 0 <= i < kw_height().len() && kw_height()[i] == 0u8;
        }
    }
}

/// Decimal text is valid chunk text and normalization leaves it unchanged.
proof fn lemma_dec_text_valid(n: nat)
    ensures
        valid_text(dec_of(n)),
        normalize_newlines(dec_of(n)) == dec_of(n),
{
    lemma_dec_of_digits(n);
    assert(!dec_of(n).contains(0u8)) by {
        if dec_of(n).contains(0u8) {
            let i = choose|i: int| 0 <= i < dec_of(n).len() && dec_of(n)[i] == 0u8;
            assert(48 <= dec_of(n)[i] <= 57);
        }
    }
    assert(!dec_of(n).contains(13u8)) by {
        if dec_of(n).contains(13u8) {
            let i = choose|i: int| 0 <= i < dec_of(n).len() && dec_of(n)[i] == 13u8;
            assert(48 <= dec_of(n)[i] <= 57);
        }
    }
    lemma_normalize_no_cr(dec_of(n));
}

pub open spec fn pow10(k: nat) -> nat
    decreases k,
{
    if k == 0 {
        1
    } else {
        10 * pow10((k - 1) as nat)
    }
}

proof fn lemma_pow10_pos(k: nat)
    ensures
        pow10(k) >= 1,
    decreases k,
{
    if k > 0 {
        lemma_pow10_pos((k - 1) as nat);
    }
}

proof fn lemma_dec_of_len(n: nat, k: nat)
    requires
        n < pow10(k),
        k >= 1,
    ensures
        dec_of(n).len() <= k,
    decreases k,
{
    if n < 10 {
    } else {
        assert(pow10(1) == 10 * pow10(0));
        if k == 1 {
            assert(false);
        }
        let m = pow10((k - 1) as nat);
        lemma_pow10_pos((k - 1) as nat);
        assert(pow10(k) == 10 * m);
        assert(n / 10 < m) by (nonlinear_arith)
            requires
                n < 10 * m,
                m >= 1,
        ;
        lemma_dec_of_len(n / 10, (k - 1) as nat);
    }
}

/// A 64-bit value has at most 20 decimal digits.
proof fn lemma_dec_u64_len(n: u64)
    ensures
        dec_of(n as nat).len() <= 20,
{
    assert(pow10(20) > 0xffffffffffffffff) by {
        reveal_with_fuel(pow10, 21);
    }
    lemma_dec_of_len(n as nat, 20);
}

/// The model of a text chunk: the "tEXt" tag over the keyword/text payload.
pub open spec fn text_model(k: Seq<u8>, t: Seq<u8>) -> ChunkModel {
    ChunkModel { kind: text_kind(), data: text_payload(k, t) }
}

/// Builds a text chunk from a keyword and text already known valid.
fn text_chunk_for(keyword: Vec<u8>, text: Vec<u8>) -> (r: Chunk)
    requires
        valid_keyword(keyword@),
        valid_text(text@),
        keyword@.len() + text@.len() + 1 <= 0xffffffff,
    ensures
        r@ == text_model(keyword@, text@),
        wf_chunk(r@),
{
    match make_text_chunk(&keyword, &text) {
        Ok(c) => c,
        Err(_) => vstd::pervasive::unreached(),
    }
}

/// The five provenance chunks, closest to the header first: height, width,
/// byte size, modification time, and the source URI.
pub open spec fn metadata_chunks(
    uri: Seq<u8>,
    mtime: u64,
    size: u64,
    width: u32,
    height: u32,
) -> Seq<ChunkModel> {
    seq![
        text_model(kw_height(), dec_of(height as nat)),
        text_model(kw_width(), dec_of(width as nat)),
        text_model(kw_size(), dec_of(size as nat)),
        text_model(kw_mtime(), dec_of(mtime as nat)),
        text_model(kw_uri(), uri),
    ]
}

/// Metadata injection: the five provenance chunks stand immediately after
/// the header chunk; every other chunk keeps its place and order.
pub open spec fn spec_inject(
    cs: Seq<ChunkModel>,
    uri: Seq<u8>,
    mtime: u64,
    size: u64,
    width: u32,
    height: u32,
) -> Seq<ChunkModel> {
    cs.take(1) + metadata_chunks(uri, mtime, size, width, height) + cs.skip(1)
}

/// Inserts the five provenance text chunks immediately after the header
/// chunk.
pub fn inject_metadata(
    chunks: Vec<Chunk>,
    uri: &Vec<u8>,
    mtime: u64,
    size: u64,
    width: u32,
    height: u32,
) -> (r: Vec<Chunk>)
    requires
        chunks@.len() >= 1,
        1 <= uri@.len() <= 0x100000,
        !uri@.contains(0u8),
    ensures
        views_of(r@) == spec_inject(views_of(chunks@), uri@, mtime, size, width, height),
        (forall|i: int| 0 <= i < chunks@.len() ==> wf_chunk(#[trigger] chunks@[i]@)) ==> (forall|
            i: int,
        |
            0 <= i < r@.len() ==> wf_chunk(#[trigger] r@[i]@)),
{
    proof {
        lemma_keywords_valid();
        lemma_dec_text_valid(mtime as nat);
        lemma_dec_text_valid(size as nat);
        lemma_dec_text_valid(width as nat);
        lemma_dec_text_valid(height as nat);
        lemma_dec_u64_len(mtime);
        lemma_dec_u64_len(size);
        lemma_dec_u64_len(width as u64);
        lemma_dec_u64_len(height as u64);
        lemma_normalize_len(uri@);
        assert(dec_of((width as u64) as nat) == dec_of(width as nat));
        assert(dec_of((height as u64) as nat) == dec_of(height as nat));
    }
    let height_c: Chunk = text_chunk_for(kw_height_vec(), u64_to_dec(height as u64));
    let width_c: Chunk = text_chunk_for(kw_width_vec(), u64_to_dec(width as u64));
    let size_c: Chunk = text_chunk_for(kw_size_vec(), u64_to_dec(size));
    let mtime_c: Chunk = text_chunk_for(kw_mtime_vec(), u64_to_dec(mtime));
    let mut uri_text: Vec<u8> = Vec::new();
    extend(&mut uri_text, uri);
    assert(uri_text@ =~= uri@);
    let uri_c: Chunk = text_chunk_for(kw_uri_vec(), uri_text);
    let mut rest: Vec<Chunk> = chunks;
    let header: Chunk = rest.remove(0);
    let mut out: Vec<Chunk> = Vec::new();
    out.push(header);
    out.push(height_c);
    out.push(width_c);
    out.push(size_c);
    out.push(mtime_c);
    out.push(uri_c);
    out.append(&mut rest);
    proof {
        assert(views_of(out@) =~= spec_inject(views_of(chunks@), uri@, mtime, size, width, height));
    }
    out
}

/// The whole metadata step on bytes: decode the pixel PNG at the chunk
/// level, inject the five provenance chunks after the header, re-encode.
pub fn prepare_thumbnail_bytes(
    crc: &CRC,
    png_bytes: &Vec<u8>,
    uri: &Vec<u8>,
    mtime: u64,
    size: u64,
    width: u32,
    height: u32,
) -> (r: Result<Vec<u8>, ThumbError>)
    requires
        crc.wf(),
        1 <= uri@.len() <= 0x100000,
        !uri@.contains(0u8),
    ensures
        match r {
            Ok(out) => spec_decode(png_bytes@) matches Ok(cs) && out@ == spec_encode(
                spec_inject(cs, uri@, mtime, size, width, height),
            ),
            Err(e) => spec_decode(png_bytes@) matches Err(fe) && e == ThumbError::Format(fe),
        },
{
    let chunks: Vec<Chunk> = match png::decode(crc, png_bytes) {
        Ok(cs) => cs,
        Err(e) => {
            return Err(ThumbError::Format(e));
        },
    };
    proof {
        png::lemma_decode_wf(png_bytes@);
        assert forall|i: int| 0 <= i < chunks@.len() implies wf_chunk(#[trigger] chunks@[i]@) by {
            assert(views_of(chunks@)[i] == chunks@[i]@);
        }
    }
    let injected: Vec<Chunk> = inject_metadata(chunks, uri, mtime, size, width, height);
    let out: Vec<u8> = png::encode(crc, &injected);
    Ok(out)
}

/// Idempotence: the metadata-injected bytes are a function of the pixel
/// bytes and the captured metadata alone, so any two generation runs over
/// unchanged inputs — whose outputs the pipeline's contract pins to the
/// same injected encoding — produce byte-identical files.
pub proof fn lemma_generate_idempotent(
    png: Seq<u8>,
    uri: Seq<u8>,
    mtime: u64,
    size: u64,
    width: u32,
    height: u32,
    cs: Seq<ChunkModel>,
    first: Seq<u8>,
    second: Seq<u8>,
)
    requires
        spec_decode(png) == Ok::<Seq<ChunkModel>, FormatError>(cs),
        first == spec_encode(spec_inject(cs, uri, mtime, size, width, height)),
        second == spec_encode(spec_inject(cs, uri, mtime, size, width, height)),
    ensures
        first == second,
{
}

} // verus!
