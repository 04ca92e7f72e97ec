use static_filez::compress::compress;
use std::io::Read;

fn inflate(stream: &[u8]) -> Vec<u8> {
    let mut decoder = flate2::read::GzDecoder::new(stream);
    let mut data = Vec::new();
    decoder.read_to_end(&mut data).unwrap();
    data
}

#[test]
fn a_stream_inflates_to_the_content() {
    let data = b"hello".to_vec();
    let stream = compress(&data).unwrap();
    assert_ne!(stream, data);
    assert_eq!(inflate(&stream), data);
}

#[test]
fn empty_content_gives_a_stream_too() {
    let stream = compress(b"").unwrap();
    assert!(!stream.is_empty());
    assert_eq!(inflate(&stream), Vec::<u8>::new());
}

#[test]
fn the_stream_has_a_blank_gzip_header() {
    let stream = compress(b"some content").unwrap();
    assert_eq!(&stream[0..3], &[0x1F, 0x8B, 8]);
    assert_eq!(stream[3], 0);
    assert_eq!(&stream[4..8], &[0, 0, 0, 0]);
    assert_eq!(stream[9], 3);
}

#[test]
fn the_stream_ends_with_checksum_and_length() {
    let data = b"hello";
    let stream = compress(data).unwrap();
    let n = stream.len();
    assert_eq!(&stream[n - 8..n - 4], &0x3610_A686u32.to_le_bytes());
    assert_eq!(&stream[n - 4..], &5u32.to_le_bytes());
}

#[test]
fn the_same_content_gives_the_same_stream() {
    let data: Vec<u8> = (0..10_000u32).map(|i| (i % 251) as u8).collect();
    assert_eq!(compress(&data).unwrap(), compress(&data).unwrap());
}

#[test]
fn repetitive_content_shrinks() {
    let data = vec![b'a'; 100_000];
    let stream = compress(&data).unwrap();
    assert!(stream.len() < 1_000);
    assert_eq!(inflate(&stream), data);
}

#[test]
fn binary_content_survives() {
    let data: Vec<u8> = (0..=255u8).cycle().take(70_000).collect();
    let stream = compress(&data).unwrap();
    assert_eq!(inflate(&stream), data);
}
