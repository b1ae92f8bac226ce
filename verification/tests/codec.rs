use termvis::modules::codec::{CodecError, VideoCodec};
use termvis::modules::frame::CharMap;

#[test]
fn compress_raw_produces_a_zlib_stream() {
    let data = vec![7u8; 1000];
    let c = VideoCodec::compress_raw(&data).unwrap();
    // zlib header for the default compression level
    assert_eq!(&c[0..2], &[0x78, 0x9c]);
    assert!(c.len() < data.len());
}

#[test]
fn compress_then_decompress_gives_back_the_map() {
    let data: Vec<u8> = (0..(3 * 5 * 3)).map(|i| (i * 37 % 256) as u8).collect();
    let m = CharMap::new(3, 5, data.clone()).unwrap();
    let c = VideoCodec::compress_lossless(&m).unwrap();
    let back = VideoCodec::decompress_lossless(&c, 3, 5).unwrap();
    assert_eq!(back.rows, 3);
    assert_eq!(back.cols, 5);
    assert_eq!(back.data, data);
}

#[test]
fn decompress_ignores_extra_bytes() {
    let data: Vec<u8> = (0..20).collect();
    let c = VideoCodec::compress_raw(&data).unwrap();
    let m = VideoCodec::decompress_lossless(&c, 2, 3).unwrap();
    assert_eq!(m.data, data[0..18].to_vec());
}

#[test]
fn decompress_rejects_corrupt_stream() {
    let r = VideoCodec::decompress_lossless(&[1, 2, 3, 4, 5], 1, 1);
    assert!(matches!(r, Err(CodecError::CorruptStream)));
}

#[test]
fn decompress_rejects_negative_size() {
    let c = VideoCodec::compress_raw(&[0u8; 12]).unwrap();
    let r = VideoCodec::decompress_lossless(&c, -1, 2);
    assert!(matches!(r, Err(CodecError::NegativeSize)));
}

#[test]
fn decompress_rejects_short_payload() {
    let c = VideoCodec::compress_raw(&[0u8; 11]).unwrap();
    let r = VideoCodec::decompress_lossless(&c, 2, 2);
    assert!(matches!(r, Err(CodecError::ShortData)));
}

#[test]
fn map_from_inflated_bytes() {
    let m = VideoCodec::char_map_from_inflated(vec![1, 2, 3, 4, 5, 6, 7], 1, 2).unwrap();
    assert_eq!(m.data, vec![1, 2, 3, 4, 5, 6]);
    assert!(matches!(
        VideoCodec::char_map_from_inflated(vec![1, 2, 3], 1, 2),
        Err(CodecError::ShortData)
    ));
    assert!(matches!(
        VideoCodec::char_map_from_inflated(vec![], 0, -3),
        Err(CodecError::NegativeSize)
    ));
    let empty = VideoCodec::char_map_from_inflated(vec![9, 9], 0, 5).unwrap();
    assert_eq!(empty.data, Vec::<u8>::new());
}
