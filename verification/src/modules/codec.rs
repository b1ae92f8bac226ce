use vstd::prelude::*;

use super::frame::CharMap;

verus! {

/// The zlib stream that flate2's `ZlibEncoder` writes for `data` at
/// `Compression::default()` level.
pub uninterp spec fn zlib_deflate(data: Seq<u8>) -> Seq<u8>;

/// What flate2's `ZlibDecoder` yields when read to the end of `data`: the
/// decompressed bytes, or `None` when the stream is corrupt or incomplete.
pub uninterp spec fn zlib_inflate(data: Seq<u8>) -> Option<Seq<u8>>;

/// Compresses `data` with `flate2::write::ZlibEncoder` (default level) into a
/// `Vec<u8>` and finishes the stream. Writing into a `Vec` cannot fail and
/// miniz_oxide reports no error at the default level with buffer output, so
/// the stream is always produced; zlib being lossless, it decompresses to
/// `data`.
#[verifier::external_body]
fn zlib_deflate_bytes(data: &[u8]) -> (compressed: Vec<u8>)
    ensures
        compressed@ == zlib_deflate(data@),
        zlib_inflate(compressed@) == Some(data@),
{
    let mut encoder = flate2::write::ZlibEncoder::new(Vec::new(), flate2::Compression::default());
    std::io::Write::write_all(&mut encoder, data).expect("compressing into memory");
    encoder.finish().expect("compressing into memory")
}

/// Reads `flate2::read::ZlibDecoder` over `data` to the end: the result is
/// `zlib_inflate(data)`.
#[verifier::external_body]
fn zlib_inflate_bytes(data: &[u8]) -> (raw: Option<Vec<u8>>)
    ensures
        match raw {
            Some(r) => zlib_inflate(data@) == Some(r@),
            None => zlib_inflate(data@) is None,
        },
{
    let mut out: Vec<u8> = Vec::new();
    match std::io::Read::read_to_end(&mut flate2::read::ZlibDecoder::new(data), &mut out) {
        Ok(_) => Some(out),
        Err(_) => None,
    }
}

/// Why a frame payload could not be decoded.
#[derive(Debug, PartialEq, Eq, Structural)]
pub enum CodecError {
    /// The payload is not a complete zlib stream.
    CorruptStream,
    /// A stored dimension is negative.
    NegativeSize,
    /// The decompressed payload holds fewer bytes than `rows * cols` pixels.
    ShortData,
}

/// Lossless compression and frame reconstruction for character maps.
pub struct VideoCodec;

impl VideoCodec {
    /// Compresses a raw byte buffer with zlib; this always succeeds.
    pub fn compress_raw(data: &[u8]) -> (r: Result<Vec<u8>, CodecError>)
        ensures
            r is Ok,
            r matches Ok(c) ==> c@ == zlib_deflate(data@) && zlib_inflate(c@) == Some(data@),
    {
        Ok(zlib_deflate_bytes(data))
    }

    /// Compresses the pixel bytes of a character map with zlib.
    pub fn compress_lossless(character_map: &CharMap) -> (r: Result<Vec<u8>, CodecError>)
        requires
            character_map.wf(),
        ensures
            r is Ok,
            r matches Ok(c) ==> c@ == zlib_deflate(character_map.data@) && zlib_inflate(c@) == Some(
                character_map.data@,
            ),
    {
        Self::compress_raw(character_map.data.as_slice())
    }

    /// Builds a `rows` x `cols` character map from decompressed bytes: the
    /// first `rows * cols * 3` of them; extra bytes are ignored.
    pub fn char_map_from_inflated(raw: Vec<u8>, rows: i32, cols: i32) -> (r: Result<CharMap, CodecError>)
        ensures
            (rows < 0 || cols < 0) ==> r == Err::<CharMap, CodecError>(CodecError::NegativeSize),
            (rows >= 0 && cols >= 0 && raw@.len() < rows * cols * 3) ==> r == Err::<CharMap, CodecError>(
                CodecError::ShortData,
            ),
            (rows >= 0 && cols >= 0 && raw@.len() >= rows * cols * 3) ==> (r matches Ok(m) && m.wf()
                && m.rows == rows && m.cols == cols && m.data@ == raw@.take(rows * cols * 3)),
    {
        if rows < 0 || cols < 0 {
            return Err(CodecError::NegativeSize);
        }
        let r = rows as usize;
        let c = cols as usize;
        let len = raw.len();
        let pixels = match r.checked_mul(c) {
            Some(p) => p,
            None => {
                assert(r * c * 3 > len) by (nonlinear_arith)
                    requires r * c > usize::MAX, len <= usize::MAX;
                return Err(CodecError::ShortData);
            },
        };
        if pixels > len / 3 {
            return Err(CodecError::ShortData);
        }
        let total = pixels * 3;
        let mut data = raw;
        data.truncate(total);
        Ok(CharMap { rows: r, cols: c, data })
    }

    /// Decompresses a frame payload into a `rows` x `cols` character map.
    pub fn decompress_lossless(compressed: &[u8], rows: i32, cols: i32) -> (r: Result<CharMap, CodecError>)
        ensures
            zlib_inflate(compressed@) is None ==> r == Err::<CharMap, CodecError>(CodecError::CorruptStream),
            zlib_inflate(compressed@) matches Some(raw) ==> {
                &&& (rows < 0 || cols < 0) ==> r == Err::<CharMap, CodecError>(CodecError::NegativeSize)
                &&& (rows >= 0 && cols >= 0 && raw.len() < rows * cols * 3) ==> r == Err::<
                    CharMap,
                    CodecError,
                >(CodecError::ShortData)
                &&& (rows >= 0 && cols >= 0 && raw.len() >= rows * cols * 3) ==> (r matches Ok(m)
                    && m.wf() && m.rows == rows && m.cols == cols && m.data@ == raw.take(
                    rows * cols * 3,
                ))
            },
    {
        match zlib_inflate_bytes(compressed) {
            None => Err(CodecError::CorruptStream),
            Some(raw) => Self::char_map_from_inflated(raw, rows, cols),
        }
    }
}

} // verus!
