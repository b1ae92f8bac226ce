use termvis::modules::codec::{CodecError, VideoCodec};
use termvis::modules::frame::CharMap;
use termvis::modules::recorder::{
    is_recording_header, parse_frame_header, PlaybackError, PlaybackState, VideoRecorder,
};

fn map(rows: usize, cols: usize, seed: u8) -> CharMap {
    let data: Vec<u8> = (0..rows * cols * 3).map(|i| (i as u8).wrapping_mul(seed)).collect();
    CharMap::new(rows, cols, data).unwrap()
}

fn le(v: i32) -> [u8; 4] {
    v.to_le_bytes()
}

#[test]
fn header_bytes() {
    let r = VideoRecorder::new();
    assert_eq!(r.write_header(), b"LZDX".to_vec());
    assert!(is_recording_header(b"LZDX"));
    assert!(!is_recording_header(b"LZDY"));
    assert!(!is_recording_header(b"LZD"));
}

#[test]
fn first_frame_is_a_keyframe_record() {
    let mut r = VideoRecorder::new();
    let m = map(2, 3, 5);
    let bytes = r.record(&m, 80, 24).unwrap();
    assert_eq!(bytes[0], 0);
    assert_eq!(&bytes[1..5], &le(80));
    assert_eq!(&bytes[5..9], &le(24));
    assert_eq!(&bytes[9..13], &le(2));
    assert_eq!(&bytes[13..17], &le(3));
    let len = u32::from_le_bytes([bytes[17], bytes[18], bytes[19], bytes[20]]) as usize;
    assert_eq!(len, bytes.len() - 21);
    assert_eq!(bytes[21..].to_vec(), VideoCodec::compress_raw(&m.data).unwrap());
}

#[test]
fn second_frame_of_same_size_is_a_xor_delta() {
    let mut r = VideoRecorder::new();
    let a = map(2, 2, 3);
    let b = map(2, 2, 7);
    r.record(&a, 10, 10).unwrap();
    let bytes = r.record(&b, 10, 10).unwrap();
    assert_eq!(bytes[0], 1);
    let delta = VideoCodec::decompress_lossless(&bytes[21..], 2, 2).unwrap();
    let expected: Vec<u8> = a.data.iter().zip(b.data.iter()).map(|(x, y)| x ^ y).collect();
    assert_eq!(delta.data, expected);
}

#[test]
fn size_change_gives_a_keyframe() {
    let mut r = VideoRecorder::new();
    r.record(&map(2, 2, 3), 10, 10).unwrap();
    let bytes = r.record(&map(2, 3, 3), 10, 10).unwrap();
    assert_eq!(bytes[0], 0);
}

#[test]
fn keyframe_every_120_frames() {
    let mut r = VideoRecorder::new();
    let m = map(2, 2, 9);
    let mut types = Vec::new();
    for _ in 0..241 {
        types.push(r.record(&m, 4, 4).unwrap()[0]);
    }
    for (i, t) in types.iter().enumerate() {
        assert_eq!(*t, if i % 120 == 0 { 0 } else { 1 }, "frame {}", i);
    }
}

#[test]
fn header_parses_back() {
    let mut r = VideoRecorder::new();
    let bytes = r.record(&map(4, 6, 1), -3, 70000).unwrap();
    let h = parse_frame_header(bytes[0], &bytes[1..21]);
    assert_eq!(h.frame_type, 0);
    assert_eq!(h.term_w, -3);
    assert_eq!(h.term_h, 70000);
    assert_eq!(h.rows, 4);
    assert_eq!(h.cols, 6);
    assert_eq!(h.data_len as usize, bytes.len() - 21);
}

#[test]
fn playback_reproduces_recorded_frames() {
    let mut rec = VideoRecorder::new();
    let mut play = PlaybackState::new();
    let frames = vec![map(2, 2, 1), map(2, 2, 2), map(2, 2, 3), map(4, 2, 4), map(4, 2, 5)];
    for f in frames.iter() {
        let bytes = rec.record(f, 80, 24).unwrap();
        let h = parse_frame_header(bytes[0], &bytes[1..21]);
        let out = play.decode_frame(&h, &bytes[21..]).unwrap();
        assert_eq!(out.rows, f.rows);
        assert_eq!(out.cols, f.cols);
        assert_eq!(out.data, f.data);
    }
}

#[test]
fn delta_without_reference_is_refused() {
    let mut play = PlaybackState::new();
    let c = VideoCodec::compress_raw(&[1u8; 12]).unwrap();
    let mut rec = VideoRecorder::new();
    let bytes = rec.record(&map(2, 2, 1), 1, 1).unwrap();
    let mut h = parse_frame_header(bytes[0], &bytes[1..21]);
    h.frame_type = 1;
    let r = play.decode_frame(&h, &c);
    assert!(matches!(r, Err(PlaybackError::MissingReference)));
}

#[test]
fn corrupt_payload_is_refused() {
    let mut play = PlaybackState::new();
    let mut rec = VideoRecorder::new();
    let bytes = rec.record(&map(2, 2, 1), 1, 1).unwrap();
    let h = parse_frame_header(bytes[0], &bytes[1..21]);
    let r = play.decode_frame(&h, &[0, 1, 2]);
    assert!(matches!(r, Err(PlaybackError::Codec(CodecError::CorruptStream))));
}

#[test]
fn keyframe_replaces_held_frame() {
    let mut play = PlaybackState::new();
    let k = CharMap::new(1, 1, vec![1, 2, 3]).unwrap();
    let out = play.apply_decoded(0, k).unwrap();
    assert_eq!(out.data, vec![1, 2, 3]);
    let d = CharMap::new(1, 1, vec![1, 1, 1]).unwrap();
    let out = play.apply_decoded(1, d).unwrap();
    assert_eq!(out.data, vec![0, 3, 2]);
}

#[test]
fn record_bytes_decode_back_with_following_bytes() {
    let mut rec = VideoRecorder::new();
    let mut play = PlaybackState::new();
    let frames = vec![map(2, 3, 1), map(2, 3, 2), map(2, 3, 2), map(4, 1, 3)];
    for f in frames.iter() {
        let mut bytes = rec.record(f, 80, 24).unwrap();
        let n = bytes.len();
        bytes.extend_from_slice(&[0xaa, 0xbb]);
        let (m, consumed) = play.decode_record(&bytes).unwrap();
        assert_eq!(consumed, n);
        assert_eq!(m.rows, f.rows);
        assert_eq!(m.cols, f.cols);
        assert_eq!(m.data, f.data);
    }
}

#[test]
fn truncated_record_is_refused() {
    let mut rec = VideoRecorder::new();
    let mut play = PlaybackState::new();
    let bytes = rec.record(&map(2, 2, 1), 1, 1).unwrap();
    assert!(matches!(play.decode_record(&bytes[..20]), Err(PlaybackError::Truncated)));
    assert!(matches!(
        play.decode_record(&bytes[..bytes.len() - 1]),
        Err(PlaybackError::Truncated)
    ));
    assert!(play.decode_record(&bytes).is_ok());
}

#[test]
fn compress_always_succeeds() {
    assert!(VideoCodec::compress_raw(&[]).is_ok());
    assert!(VideoCodec::compress_lossless(&map(3, 3, 4)).is_ok());
}

#[test]
fn whole_recording_replays_in_order() {
    let mut rec = VideoRecorder::new();
    let mut file = rec.write_header();
    let frames = vec![map(2, 2, 1), map(2, 2, 5), map(2, 2, 5), map(6, 3, 2), map(6, 3, 9)];
    for f in frames.iter() {
        file.extend(rec.record(f, 100, 30).unwrap());
    }
    assert!(is_recording_header(&file[0..4]));
    let mut play = PlaybackState::new();
    let mut pos = 4;
    let mut decoded = Vec::new();
    while pos < file.len() {
        let (m, n) = play.decode_record(&file[pos..]).unwrap();
        decoded.push(m);
        pos += n;
    }
    assert_eq!(pos, file.len());
    assert_eq!(decoded.len(), frames.len());
    for (d, f) in decoded.iter().zip(frames.iter()) {
        assert_eq!((d.rows, d.cols), (f.rows, f.cols));
        assert_eq!(d.data, f.data);
    }
}
