use vstd::prelude::*;

use super::codec::{CodecError, VideoCodec, zlib_deflate, zlib_inflate};
use super::frame::CharMap;
use super::renderer::append_bytes;

verus! {

/// A keyframe is forced every this many recorded frames.
pub const KEYFRAME_INTERVAL: u32 = 120;

/// Frame type of a keyframe: the payload is the frame itself.
pub const FRAME_KEY: u8 = 0;

/// Frame type of a delta frame: the payload is the frame XOR the previous one.
pub const FRAME_DELTA: u8 = 1;

/// The four bytes `L Z D X` that open a recording.
pub open spec fn recording_magic() -> Seq<u8> {
    seq![76u8, 90u8, 68u8, 88u8]
}

/// Little-endian bytes of a `u32`.
pub open spec fn le_u32(v: u32) -> Seq<u8> {
    seq![v as u8, (v >> 8u32) as u8, (v >> 16u32) as u8, (v >> 24u32) as u8]
}

/// Little-endian bytes of an `i32` (two's complement).
pub open spec fn le_i32(v: i32) -> Seq<u8> {
    le_u32(v as u32)
}

/// The `u32` whose little-endian bytes are `b[0..4]`.
pub open spec fn le_u32_value(b: Seq<u8>) -> u32 {
    (b[0] as u32) | ((b[1] as u32) << 8u32) | ((b[2] as u32) << 16u32) | ((b[3] as u32) << 24u32)
}

/// Byte-wise exclusive or of `a` with the first `a.len()` bytes of `b`.
pub open spec fn xor_bytes(a: Seq<u8>, b: Seq<u8>) -> Seq<u8> {
    Seq::new(a.len(), |i: int| a[i] ^ b[i])
}

/// One frame record of a recording: frame type, terminal width and height,
/// map rows and columns, payload length (modulo 2^32), then the payload.
pub open spec fn frame_record(
    frame_type: u8,
    term_w: i32,
    term_h: i32,
    rows: i32,
    cols: i32,
    payload: Seq<u8>,
) -> Seq<u8> {
    seq![frame_type] + le_i32(term_w) + le_i32(term_h) + le_i32(rows) + le_i32(cols) + le_u32(
        (payload.len() % 0x1_0000_0000) as u32,
    ) + payload
}

/// What the recorder remembers between frames.
pub struct RecorderState {
    /// Pixel bytes of the last recorded frame (empty before the first).
    pub last_frame: Seq<u8>,
    pub last_rows: i32,
    pub last_cols: i32,
    /// Number of frames recorded so far, wrapping.
    pub frame_count: u32,
}

impl RecorderState {
    /// The remembered frame has the remembered size.
    pub open spec fn wf(self) -> bool {
        &&& self.last_rows >= 0
        &&& self.last_cols >= 0
        &&& self.last_frame.len() == self.last_rows * self.last_cols * 3
    }

    /// A frame of `rows` x `cols` is stored whole when nothing was recorded
    /// yet, when its size differs from the last one, or on every
    /// `KEYFRAME_INTERVAL`-th frame.
    pub open spec fn is_keyframe(self, rows: int, cols: int) -> bool {
        ||| self.last_frame.len() == 0
        ||| rows != self.last_rows
        ||| cols != self.last_cols
        ||| self.frame_count % KEYFRAME_INTERVAL == 0
    }

    /// Frame type and uncompressed payload recorded for `map` in this state.
    pub open spec fn payload_for(self, map: &CharMap) -> (u8, Seq<u8>) {
        if self.is_keyframe(map.rows as int, map.cols as int) {
            (FRAME_KEY, map.data@)
        } else {
            (FRAME_DELTA, xor_bytes(map.data@, self.last_frame))
        }
    }
}

/// Records character maps as keyframes and delta-XOR frames.
pub struct VideoRecorder {
    last_frame_data: Vec<u8>,
    last_rows: i32,
    last_cols: i32,
    frame_count: u32,
}

impl VideoRecorder {
    /// The remembered frame has the remembered size.
    #[verifier::type_invariant]
    spec fn remembered_frame_fits(self) -> bool {
        &&& self.last_rows >= 0
        &&& self.last_cols >= 0
        &&& self.last_frame_data@.len() == self.last_rows * self.last_cols * 3
    }
}

impl View for VideoRecorder {
    type V = RecorderState;

    closed spec fn view(&self) -> RecorderState {
        RecorderState {
            last_frame: self.last_frame_data@,
            last_rows: self.last_rows,
            last_cols: self.last_cols,
            frame_count: self.frame_count,
        }
    }
}

/// Appends the little-endian bytes of `v`.
fn write_le_u32(buf: &mut Vec<u8>, v: u32)
    ensures
        final(buf)@ == old(buf)@ + le_u32(v),
{
    let ghost start = buf@;
    buf.push(v as u8);
    buf.push((v >> 8) as u8);
    buf.push((v >> 16) as u8);
    buf.push((v >> 24) as u8);
    assert(buf@ =~= start + le_u32(v));
}

/// Appends the little-endian bytes of `v`.
fn write_le_i32(buf: &mut Vec<u8>, v: i32)
    ensures
        final(buf)@ == old(buf)@ + le_i32(v),
{
    write_le_u32(buf, v as u32);
}

/// `a[i] ^ b[i]` for every index of `a`.
fn xor_into(a: &Vec<u8>, b: &Vec<u8>) -> (out: Vec<u8>)
    requires
        a@.len() <= b@.len(),
    ensures
        out@ == xor_bytes(a@, b@),
{
    let n = a.len();
    let mut out: Vec<u8> = Vec::new();
    let mut i: usize = 0;
    while i < n
        invariant
            n == a@.len(),
            a@.len() <= b@.len(),
            i <= n,
            out@ == xor_bytes(a@.take(i as int), b@),
        decreases n - i,
    {
        out.push(a[i] ^ b[i]);
        i += 1;
        assert(out@ =~= xor_bytes(a@.take(i as int), b@));
    }
    assert(a@.take(n as int) =~= a@);
    out
}

impl VideoRecorder {
    /// A recorder that has recorded nothing.
    pub fn new() -> (r: VideoRecorder)
        ensures
            r@.last_frame == Seq::<u8>::empty(),
            r@.last_rows == 0,
            r@.last_cols == 0,
            r@.frame_count == 0,
            r@.wf(),
    {
        VideoRecorder { last_frame_data: Vec::new(), last_rows: 0, last_cols: 0, frame_count: 0 }
    }

    /// The bytes that open a recording.
    pub fn write_header(&self) -> (out: Vec<u8>)
        ensures
            out@ == recording_magic(),
    {
        let mut out: Vec<u8> = Vec::new();
        append_bytes(&mut out, &[76u8, 90, 68, 88]);
        assert(out@ =~= recording_magic());
        out
    }

    /// Records `character_map`, shown on a `w` x `h` terminal: returns the
    /// frame record to append to the recording. The payload is the map
    /// (keyframe) or the map XOR the previous one (delta), zlib-compressed.
    /// Recording always succeeds.
    pub fn record(&mut self, character_map: &CharMap, w: i32, h: i32) -> (r: Result<Vec<u8>, CodecError>)
        requires
            character_map.wf(),
        ensures
            old(self)@.wf(),
            final(self)@.wf(),
            final(self)@.frame_count == old(self)@.frame_count.wrapping_add(1),
            r is Ok,
            zlib_inflate(zlib_deflate(old(self)@.payload_for(character_map).1)) == Some(
                old(self)@.payload_for(character_map).1,
            ),
            r matches Ok(bytes) ==> {
                let (frame_type, payload) = old(self)@.payload_for(character_map);
                &&& bytes@ == frame_record(
                    frame_type,
                    w,
                    h,
                    character_map.rows as i32,
                    character_map.cols as i32,
                    zlib_deflate(payload),
                )
                &&& final(self)@.last_frame == character_map.data@
                &&& final(self)@.last_rows == character_map.rows
                &&& final(self)@.last_cols == character_map.cols
            },
    {
        proof {
            use_type_invariant(&*self);
        }
        let rows = character_map.rows as i32;
        let cols = character_map.cols as i32;
        let size_changed = rows != self.last_rows || cols != self.last_cols;
        let is_keyframe = self.last_frame_data.len() == 0 || size_changed || self.frame_count
            % KEYFRAME_INTERVAL == 0;
        self.frame_count = self.frame_count.wrapping_add(1);
        let (frame_type, compressed) = if is_keyframe {
            match VideoCodec::compress_raw(character_map.data.as_slice()) {
                Ok(c) => (FRAME_KEY, c),
                Err(e) => return Err(e),
            }
        } else {
            let delta = xor_into(&character_map.data, &self.last_frame_data);
            match VideoCodec::compress_raw(delta.as_slice()) {
                Ok(c) => (FRAME_DELTA, c),
                Err(e) => return Err(e),
            }
        };
        let mut out: Vec<u8> = Vec::new();
        out.push(frame_type);
        write_le_i32(&mut out, w);
        write_le_i32(&mut out, h);
        write_le_i32(&mut out, rows);
        write_le_i32(&mut out, cols);
        let len64 = compressed.len() as u64;
        let data_len = len64 as u32;
        assert(data_len == (len64 % 0x1_0000_0000u64) as u32) by (bit_vector)
            requires data_len == len64 as u32;
        write_le_u32(&mut out, data_len);
        append_bytes(&mut out, compressed.as_slice());
        let frame_count = self.frame_count;
        *self = VideoRecorder {
            last_frame_data: character_map.data.clone(),
            last_rows: rows,
            last_cols: cols,
            frame_count,
        };
        proof {
            assert(out@ =~= frame_record(frame_type, w, h, rows, cols, compressed@));
        }
        Ok(out)
    }
}


// ---------------------------------------------------------------------------
// Playback
// ---------------------------------------------------------------------------

/// The fixed part of a frame record that follows its type byte.
pub struct FrameHeader {
    pub frame_type: u8,
    /// Terminal size when the frame was recorded.
    pub term_w: i32,
    pub term_h: i32,
    /// Size of the recorded character map.
    pub rows: i32,
    pub cols: i32,
    /// Length of the compressed payload that follows.
    pub data_len: u32,
}

/// Whether the first bytes of a file mark it as a recording.
pub fn is_recording_header(magic: &[u8]) -> (b: bool)
    ensures
        b == (magic@ == recording_magic()),
{
    if magic.len() != 4 {
        assert(magic@.len() != recording_magic().len());
        return false;
    }
    let b = magic[0] == 76 && magic[1] == 90 && magic[2] == 68 && magic[3] == 88;
    if b {
        assert(magic@ =~= recording_magic());
    }
    b
}

fn read_le_u32(bytes: &[u8], at: usize) -> (v: u32)
    requires
        at + 4 <= bytes@.len(),
    ensures
        v == le_u32_value(bytes@.subrange(at as int, at + 4)),
{
    (bytes[at] as u32) | ((bytes[at + 1] as u32) << 8) | ((bytes[at + 2] as u32) << 16) | ((
    bytes[at + 3] as u32) << 24)
}

/// Reads the 20 bytes that follow a frame's type byte.
pub fn parse_frame_header(frame_type: u8, meta: &[u8]) -> (h: FrameHeader)
    requires
        meta@.len() == 20,
    ensures
        h.frame_type == frame_type,
        h.term_w == le_u32_value(meta@.subrange(0, 4)) as i32,
        h.term_h == le_u32_value(meta@.subrange(4, 8)) as i32,
        h.rows == le_u32_value(meta@.subrange(8, 12)) as i32,
        h.cols == le_u32_value(meta@.subrange(12, 16)) as i32,
        h.data_len == le_u32_value(meta@.subrange(16, 20)),
{
    FrameHeader {
        frame_type,
        term_w: read_le_u32(meta, 0) as i32,
        term_h: read_le_u32(meta, 4) as i32,
        rows: read_le_u32(meta, 8) as i32,
        cols: read_le_u32(meta, 12) as i32,
        data_len: read_le_u32(meta, 16),
    }
}

/// The frame a decoder holds after a frame of type `frame_type` whose payload
/// decompressed to `decoded`, given the frame it held before: a keyframe is
/// taken as is, any other type is XORed onto the held frame; `None` when the
/// held frame is shorter than the payload.
pub open spec fn apply_frame(current: Seq<u8>, frame_type: u8, decoded: Seq<u8>) -> Option<Seq<u8>> {
    if frame_type == FRAME_KEY {
        Some(decoded)
    } else if current.len() < decoded.len() {
        None
    } else {
        Some(xor_bytes(decoded, current))
    }
}

/// Why a frame could not be played back.
#[derive(Debug, PartialEq, Eq, Structural)]
pub enum PlaybackError {
    /// The payload could not be decoded into a character map.
    Codec(CodecError),
    /// A delta frame came without a previous frame of at least its size.
    MissingReference,
    /// The bytes end before the frame record does.
    Truncated,
}

/// Decoding one frame record at the start of `record` by a decoder holding
/// `current`: the map's rows, columns and pixels, and the length of the
/// record; bytes after the record are left alone.
pub open spec fn replay_record(current: Seq<u8>, record: Seq<u8>) -> Result<
    (i32, i32, Seq<u8>, nat),
    PlaybackError,
> {
    if record.len() < 21 {
        Err(PlaybackError::Truncated)
    } else {
        let meta = record.subrange(1, 21);
        let rows = le_u32_value(meta.subrange(8, 12)) as i32;
        let cols = le_u32_value(meta.subrange(12, 16)) as i32;
        let len = le_u32_value(meta.subrange(16, 20));
        if record.len() < 21 + len {
            Err(PlaybackError::Truncated)
        } else {
            match zlib_inflate(record.subrange(21, 21 + len)) {
                None => Err(PlaybackError::Codec(CodecError::CorruptStream)),
                Some(raw) => if rows < 0 || cols < 0 {
                    Err(PlaybackError::Codec(CodecError::NegativeSize))
                } else if raw.len() < rows * cols * 3 {
                    Err(PlaybackError::Codec(CodecError::ShortData))
                } else {
                    match apply_frame(current, record[0], raw.take(rows * cols * 3)) {
                        None => Err(PlaybackError::MissingReference),
                        Some(frame) => Ok((rows, cols, frame, (21 + len) as nat)),
                    }
                },
            }
        }
    }
}

/// The decoder's state during playback: the last reconstructed frame.
pub struct PlaybackState {
    current_frame_data: Vec<u8>,
}

impl View for PlaybackState {
    type V = Seq<u8>;

    closed spec fn view(&self) -> Seq<u8> {
        self.current_frame_data@
    }
}

impl PlaybackState {
    /// A decoder that holds no frame.
    pub fn new() -> (r: PlaybackState)
        ensures
            r@ == Seq::<u8>::empty(),
    {
        PlaybackState { current_frame_data: Vec::new() }
    }

    /// Reconstructs the frame from its decompressed payload (`decoded`, a
    /// map of the recorded size) and remembers it.
    pub fn apply_decoded(&mut self, frame_type: u8, decoded: CharMap) -> (r: Result<CharMap, PlaybackError>)
        requires
            decoded.wf(),
        ensures
            apply_frame(old(self)@, frame_type, decoded.data@) is None ==> (r == Err::<CharMap, PlaybackError>(
                PlaybackError::MissingReference,
            ) && final(self)@ == old(self)@),
            apply_frame(old(self)@, frame_type, decoded.data@) matches Some(frame) ==> (r matches Ok(m)
                && m.wf() && m.rows == decoded.rows && m.cols == decoded.cols && m.data@ == frame
                && final(self)@ == frame),
    {
        if frame_type == FRAME_KEY {
            self.current_frame_data = decoded.data.clone();
            Ok(decoded)
        } else {
            if self.current_frame_data.len() < decoded.data.len() {
                return Err(PlaybackError::MissingReference);
            }
            let restored = xor_into(&decoded.data, &self.current_frame_data);
            self.current_frame_data = restored.clone();
            Ok(CharMap { rows: decoded.rows, cols: decoded.cols, data: restored })
        }
    }

    /// Decodes the frame record at the start of `record` (see
    /// `replay_record`): the reconstructed map and the record's length.
    pub fn decode_record(&mut self, record: &[u8]) -> (r: Result<(CharMap, usize), PlaybackError>)
        ensures
            match replay_record(old(self)@, record@) {
                Ok((rows, cols, frame, n)) => r matches Ok((m, k)) && m.wf() && m.rows == rows
                    && m.cols == cols && m.data@ == frame && k == n && final(self)@ == frame,
                Err(e) => r == Err::<(CharMap, usize), PlaybackError>(e) && final(self)@ == old(self)@,
            },
    {
        if record.len() < 21 {
            return Err(PlaybackError::Truncated);
        }
        let meta = vstd::slice::slice_subrange(record, 1, 21);
        let header = parse_frame_header(record[0], meta);
        proof {
            assert(meta@ == record@.subrange(1, 21));
        }
        let len = header.data_len as usize;
        if record.len() - 21 < len {
            return Err(PlaybackError::Truncated);
        }
        let payload = vstd::slice::slice_subrange(record, 21, 21 + len);
        match self.decode_frame(&header, payload) {
            Ok(m) => Ok((m, 21 + len)),
            Err(e) => Err(e),
        }
    }

    /// Decompresses a frame's payload and reconstructs the frame.
    pub fn decode_frame(&mut self, header: &FrameHeader, payload: &[u8]) -> (r: Result<CharMap, PlaybackError>)
        ensures
            zlib_inflate(payload@) is None ==> (r == Err::<CharMap, PlaybackError>(
                PlaybackError::Codec(CodecError::CorruptStream),
            ) && final(self)@ == old(self)@),
            zlib_inflate(payload@) matches Some(raw) ==> {
                &&& (header.rows < 0 || header.cols < 0) ==> (r == Err::<CharMap, PlaybackError>(
                    PlaybackError::Codec(CodecError::NegativeSize),
                ) && final(self)@ == old(self)@)
                &&& (header.rows >= 0 && header.cols >= 0 && raw.len() < header.rows * header.cols * 3)
                    ==> (r == Err::<CharMap, PlaybackError>(PlaybackError::Codec(CodecError::ShortData))
                    && final(self)@ == old(self)@)
                &&& (header.rows >= 0 && header.cols >= 0 && raw.len() >= header.rows * header.cols * 3)
                    ==> {
                    let decoded = raw.take(header.rows * header.cols * 3);
                    &&& apply_frame(old(self)@, header.frame_type, decoded) is None ==> (r == Err::<
                        CharMap,
                        PlaybackError,
                    >(PlaybackError::MissingReference) && final(self)@ == old(self)@)
                    &&& apply_frame(old(self)@, header.frame_type, decoded) matches Some(frame) ==> (
                    r matches Ok(m) && m.wf() && m.rows == header.rows && m.cols == header.cols
                        && m.data@ == frame && final(self)@ == frame)
                }
            },
    {
        match VideoCodec::decompress_lossless(payload, header.rows, header.cols) {
            Err(e) => Err(PlaybackError::Codec(e)),
            Ok(decoded) => self.apply_decoded(header.frame_type, decoded),
        }
    }
}


// ---------------------------------------------------------------------------
// Laws of the recording format
// ---------------------------------------------------------------------------

/// Little-endian encoding of a `u32` is read back as the same value.
pub proof fn lemma_le_u32_roundtrip(v: u32)
    ensures
        le_u32_value(le_u32(v)) == v,
{
    let b = le_u32(v);
    assert(b[0] == v as u8 && b[1] == (v >> 8u32) as u8 && b[2] == (v >> 16u32) as u8 && b[3] == (v
        >> 24u32) as u8);
    assert(((v as u8) as u32) | ((((v >> 8u32) as u8) as u32) << 8u32) | ((((v >> 16u32) as u8) as u32)
        << 16u32) | ((((v >> 24u32) as u8) as u32) << 24u32) == v) by (bit_vector);
}

/// Little-endian encoding of an `i32` is read back as the same value.
pub proof fn lemma_le_i32_roundtrip(v: i32)
    ensures
        le_u32_value(le_i32(v)) as i32 == v,
{
    lemma_le_u32_roundtrip(v as u32);
    assert((v as u32) as i32 == v) by (bit_vector);
}

/// A frame record is read back by the playback parser: its first byte is the
/// frame type, the next 20 bytes give the sizes and the payload length
/// (exact below 2^32 bytes), and the payload follows.
pub proof fn lemma_frame_record_parses(
    frame_type: u8,
    term_w: i32,
    term_h: i32,
    rows: i32,
    cols: i32,
    payload: Seq<u8>,
)
    ensures
        ({
            let b = frame_record(frame_type, term_w, term_h, rows, cols, payload);
            let meta = b.subrange(1, 21);
            &&& b.len() == 21 + payload.len()
            &&& b[0] == frame_type
            &&& le_u32_value(meta.subrange(0, 4)) as i32 == term_w
            &&& le_u32_value(meta.subrange(4, 8)) as i32 == term_h
            &&& le_u32_value(meta.subrange(8, 12)) as i32 == rows
            &&& le_u32_value(meta.subrange(12, 16)) as i32 == cols
            &&& payload.len() < 0x1_0000_0000 ==> le_u32_value(meta.subrange(16, 20)) == payload.len()
            &&& b.subrange(21, b.len() as int) == payload
        }),
{
    let b = frame_record(frame_type, term_w, term_h, rows, cols, payload);
    let len32 = (payload.len() % 0x1_0000_0000) as u32;
    let meta = b.subrange(1, 21);
    assert(meta.subrange(0, 4) =~= le_i32(term_w));
    assert(meta.subrange(4, 8) =~= le_i32(term_h));
    assert(meta.subrange(8, 12) =~= le_i32(rows));
    assert(meta.subrange(12, 16) =~= le_i32(cols));
    assert(meta.subrange(16, 20) =~= le_u32(len32));
    assert(b.subrange(21, b.len() as int) =~= payload);
    lemma_le_i32_roundtrip(term_w);
    lemma_le_i32_roundtrip(term_h);
    lemma_le_i32_roundtrip(rows);
    lemma_le_i32_roundtrip(cols);
    lemma_le_u32_roundtrip(len32);
}

/// XOR with the same bytes twice gives back the original bytes.
pub proof fn lemma_xor_twice(a: Seq<u8>, b: Seq<u8>)
    requires
        a.len() <= b.len(),
    ensures
        xor_bytes(xor_bytes(a, b), b) == a,
{
    assert forall|i: int| 0 <= i < a.len() implies #[trigger] xor_bytes(xor_bytes(a, b), b)[i] == a[i] by {
        let x = a[i];
        let y = b[i];
        assert((x ^ y) ^ y == x) by (bit_vector);
    }
    assert(xor_bytes(xor_bytes(a, b), b) =~= a);
}

/// Recording the same picture again, between keyframes, stores a payload of
/// zero bytes only: a static picture compresses to almost nothing.
pub proof fn lemma_static_frame_delta_is_zero(state: RecorderState, map: &CharMap)
    requires
        state.wf(),
        map.wf(),
        map.data@ == state.last_frame,
        !state.is_keyframe(map.rows as int, map.cols as int),
    ensures
        state.payload_for(map).0 == FRAME_DELTA,
        state.payload_for(map).1 == Seq::new(map.data@.len(), |i: int| 0u8),
{
    assert forall|i: int| 0 <= i < map.data@.len() implies #[trigger] xor_bytes(map.data@, state.last_frame)[i] == 0u8 by {
        let x = map.data@[i];
        assert(x ^ x == 0u8) by (bit_vector);
    }
    assert(xor_bytes(map.data@, state.last_frame) =~= Seq::new(map.data@.len(), |i: int| 0u8));
}

/// The bytes `record` returns are decoded back into the recorded map by a
/// decoder that holds the recorder's previous frame, whatever bytes follow
/// them: recording and then playing back is lossless. (`z` is the
/// compressed payload; `record` states that it inflates to the uncompressed
/// payload. A payload of 2^32 bytes or more cannot have its length stored.)
pub proof fn lemma_recorded_frame_replays(
    state: RecorderState,
    current: Seq<u8>,
    map: &CharMap,
    w: i32,
    h: i32,
    z: Seq<u8>,
    rest: Seq<u8>,
)
    requires
        state.wf(),
        map.wf(),
        current == state.last_frame,
        zlib_inflate(z) == Some(state.payload_for(map).1),
        z.len() < 0x1_0000_0000,
    ensures
        replay_record(
            current,
            frame_record(state.payload_for(map).0, w, h, map.rows as i32, map.cols as i32, z) + rest,
        ) == Ok::<(i32, i32, Seq<u8>, nat), PlaybackError>(
            (map.rows as i32, map.cols as i32, map.data@, 21 + z.len()),
        ),
{
    let (t, payload) = state.payload_for(map);
    let rows = map.rows as i32;
    let cols = map.cols as i32;
    let rec = frame_record(t, w, h, rows, cols, z);
    let b = rec + rest;
    lemma_frame_record_parses(t, w, h, rows, cols, z);
    assert(b.subrange(1, 21) =~= rec.subrange(1, 21));
    assert(b.subrange(21, 21 + z.len() as int) =~= rec.subrange(21, rec.len() as int));
    assert(b[0] == t);
    lemma_playback_step(state, current, map);
    assert(payload.len() == rows * cols * 3);
    assert(payload.take(rows * cols * 3) =~= payload);
}

/// Recording the same picture twice in a row stores it the second time as a
/// delta of zero bytes, whatever its shape, unless the second recording falls
/// on a keyframe count.
pub proof fn lemma_repeat_is_zero_delta(state: RecorderState, map: &CharMap)
    requires
        state.wf(),
        map.wf(),
        map.data@.len() > 0,
        state.frame_count.wrapping_add(1) % KEYFRAME_INTERVAL != 0,
    ensures
        recorded(state, map).payload_for(map) == (FRAME_DELTA, Seq::new(map.data@.len(), |i: int| 0u8)),
{
    let next = recorded(state, map);
    lemma_playback_step(state, state.last_frame, map);
    assert(!next.is_keyframe(map.rows as int, map.cols as int));
    lemma_static_frame_delta_is_zero(next, map);
}

/// The recorder's state after successfully recording `map`.
pub open spec fn recorded(state: RecorderState, map: &CharMap) -> RecorderState {
    RecorderState {
        last_frame: map.data@,
        last_rows: map.rows as i32,
        last_cols: map.cols as i32,
        frame_count: state.frame_count.wrapping_add(1),
    }
}

/// A decoder holding the frame the recorder holds turns the recorder's next
/// payload back into exactly the recorded frame, and then again holds what
/// the recorder holds.
pub proof fn lemma_playback_step(state: RecorderState, current: Seq<u8>, map: &CharMap)
    requires
        state.wf(),
        map.wf(),
        current == state.last_frame,
    ensures
        apply_frame(current, state.payload_for(map).0, state.payload_for(map).1) == Some(map.data@),
        recorded(state, map).wf(),
        recorded(state, map).last_frame == map.data@,
{
    if !state.is_keyframe(map.rows as int, map.cols as int) {
        lemma_xor_twice(map.data@, state.last_frame);
    }
}

/// Frame types and uncompressed payloads of a whole recording session.
pub open spec fn session_payloads(state: RecorderState, maps: Seq<CharMap>) -> Seq<(u8, Seq<u8>)>
    decreases maps.len(),
{
    if maps.len() == 0 {
        Seq::empty()
    } else {
        seq![state.payload_for(&maps[0])] + session_payloads(recorded(state, &maps[0]), maps.drop_first())
    }
}

/// The frames a decoder reconstructs from a sequence of payloads, or `None`
/// when one of them cannot be applied.
pub open spec fn play_payloads(current: Seq<u8>, payloads: Seq<(u8, Seq<u8>)>) -> Option<Seq<Seq<u8>>>
    decreases payloads.len(),
{
    if payloads.len() == 0 {
        Some(Seq::empty())
    } else {
        match apply_frame(current, payloads[0].0, payloads[0].1) {
            None => None,
            Some(frame) => match play_payloads(frame, payloads.drop_first()) {
                None => None,
                Some(rest) => Some(seq![frame] + rest),
            },
        }
    }
}

/// Playing back a recording session reproduces every recorded frame exactly,
/// starting from a fresh recorder and a fresh decoder (or any pair that holds
/// the same frame).
pub proof fn lemma_playback_reproduces_session(state: RecorderState, current: Seq<u8>, maps: Seq<CharMap>)
    requires
        state.wf(),
        current == state.last_frame,
        forall|i: int| 0 <= i < maps.len() ==> #[trigger] maps[i].wf(),
    ensures
        play_payloads(current, session_payloads(state, maps)) == Some(
            maps.map_values(|m: CharMap| m.data@),
        ),
    decreases maps.len(),
{
    if maps.len() == 0 {
        assert(maps.map_values(|m: CharMap| m.data@) =~= Seq::<Seq<u8>>::empty());
    } else {
        let m0 = maps[0];
        assert(maps[0].wf());
        lemma_playback_step(state, current, &m0);
        let next = recorded(state, &m0);
        let rest = maps.drop_first();
        assert forall|i: int| 0 <= i < rest.len() implies #[trigger] rest[i].wf() by {
            assert(maps[i + 1].wf());
        }
        lemma_playback_reproduces_session(next, m0.data@, rest);
        let payloads = session_payloads(state, maps);
        assert(payloads[0] == state.payload_for(&m0));
        assert(payloads.drop_first() =~= session_payloads(next, rest));
        assert(maps.map_values(|m: CharMap| m.data@) =~= seq![m0.data@] + rest.map_values(
            |m: CharMap| m.data@,
        ));
    }
}


/// The frame records of a recording session, concatenated: the maps recorded
/// one after the other on a `w` x `h` terminal, starting in `state`.
pub open spec fn session_records(state: RecorderState, maps: Seq<CharMap>, w: i32, h: i32) -> Seq<u8>
    decreases maps.len(),
{
    if maps.len() == 0 {
        Seq::empty()
    } else {
        let (t, p) = state.payload_for(&maps[0]);
        frame_record(t, w, h, maps[0].rows as i32, maps[0].cols as i32, zlib_deflate(p))
            + session_records(recorded(state, &maps[0]), maps.drop_first(), w, h)
    }
}

/// Decodes consecutive frame records until the bytes end: each map's rows,
/// columns and pixels, or the first error.
pub open spec fn replay_records(current: Seq<u8>, bytes: Seq<u8>) -> Result<
    Seq<(i32, i32, Seq<u8>)>,
    PlaybackError,
>
    decreases bytes.len(),
{
    if bytes.len() == 0 {
        Ok(Seq::empty())
    } else {
        match replay_record(current, bytes) {
            Err(e) => Err(e),
            Ok((rows, cols, frame, n)) => if n == 0 || n > bytes.len() {
                Err(PlaybackError::Truncated)
            } else {
                match replay_records(frame, bytes.skip(n as int)) {
                    Err(e) => Err(e),
                    Ok(rest) => Ok(seq![(rows, cols, frame)] + rest),
                }
            },
        }
    }
}

proof fn lemma_session_payloads_len(state: RecorderState, maps: Seq<CharMap>)
    ensures
        session_payloads(state, maps).len() == maps.len(),
    decreases maps.len(),
{
    if maps.len() > 0 {
        lemma_session_payloads_len(recorded(state, &maps[0]), maps.drop_first());
    }
}

/// Playing back the records of a whole session, from a decoder holding the
/// recorder's frame (both fresh, say), gives back every recorded map in
/// order: recording then playing back is lossless. Each compressed payload
/// must inflate back (as `record` states of every payload it compresses) and
/// be shorter than 2^32 bytes, so that its length can be stored.
pub proof fn lemma_session_replays(state: RecorderState, maps: Seq<CharMap>, w: i32, h: i32)
    requires
        state.wf(),
        forall|i: int| 0 <= i < maps.len() ==> #[trigger] maps[i].wf(),
        forall|i: int|
            0 <= i < maps.len() ==> zlib_inflate(zlib_deflate(#[trigger] session_payloads(state, maps)[i].1))
                == Some(session_payloads(state, maps)[i].1) && zlib_deflate(
                session_payloads(state, maps)[i].1,
            ).len() < 0x1_0000_0000,
    ensures
        replay_records(state.last_frame, session_records(state, maps, w, h)) == Ok::<
            Seq<(i32, i32, Seq<u8>)>,
            PlaybackError,
        >(maps.map_values(|m: CharMap| (m.rows as i32, m.cols as i32, m.data@))),
    decreases maps.len(),
{
    let out = maps.map_values(|m: CharMap| (m.rows as i32, m.cols as i32, m.data@));
    if maps.len() == 0 {
        assert(out =~= Seq::<(i32, i32, Seq<u8>)>::empty());
    } else {
        let m0 = maps[0];
        assert(maps[0].wf());
        let (t, p) = state.payload_for(&m0);
        let z = zlib_deflate(p);
        let next = recorded(state, &m0);
        let rest_maps = maps.drop_first();
        let payloads = session_payloads(state, maps);
        lemma_session_payloads_len(state, maps);
        lemma_session_payloads_len(next, rest_maps);
        assert(payloads[0] == state.payload_for(&m0));
        assert(payloads.drop_first() =~= session_payloads(next, rest_maps));
        assert(zlib_inflate(zlib_deflate(payloads[0].1)) == Some(payloads[0].1));
        assert(zlib_deflate(payloads[0].1).len() < 0x1_0000_0000);
        let rest = session_records(next, rest_maps, w, h);
        let rec = frame_record(t, w, h, m0.rows as i32, m0.cols as i32, z);
        lemma_recorded_frame_replays(state, state.last_frame, &m0, w, h, z, rest);
        lemma_playback_step(state, state.last_frame, &m0);
        assert(session_records(state, maps, w, h) == rec + rest);
        assert(rec.len() == 21 + z.len());
        assert((rec + rest).skip(21 + z.len() as int) =~= rest);
        assert forall|i: int| 0 <= i < rest_maps.len() implies #[trigger] rest_maps[i].wf() by {
            assert(maps[i + 1].wf());
        }
        assert forall|i: int| 0 <= i < rest_maps.len() implies zlib_inflate(
            zlib_deflate(#[trigger] session_payloads(next, rest_maps)[i].1),
        ) == Some(session_payloads(next, rest_maps)[i].1) && zlib_deflate(
            session_payloads(next, rest_maps)[i].1,
        ).len() < 0x1_0000_0000 by {
            assert(session_payloads(next, rest_maps)[i] == payloads[i + 1]);
        }
        lemma_session_replays(next, rest_maps, w, h);
        assert(out =~= seq![(m0.rows as i32, m0.cols as i32, m0.data@)] + rest_maps.map_values(
            |m: CharMap| (m.rows as i32, m.cols as i32, m.data@),
        ));
    }
}

} // verus!
