//! Tests of the run-length stage through its public encode and decode
//! functions.

use bindelta::rle::rle_compress;
use bindelta::rle::rle_decompress;

#[test]
fn rle_round_trip() {
    let cases: Vec<Vec<u8>> = vec![
        vec![],
        vec![0],
        vec![1, 2, 3],
        vec![0, 0, 0, 0],
        vec![5, 0, 0, 9, 0],
        std::iter::repeat(0u8).take(1000).collect(),
        (0..600u32).map(|i| (i % 3) as u8).collect(),
    ];
    for s in cases {
        let c = rle_compress(&s);
        assert!(c.len() <= 2 * s.len());
        assert_eq!(rle_decompress(&c), Some(s));
    }
}

#[test]
fn rle_crushes_zero_runs() {
    let zeros: Vec<u8> = std::iter::repeat(0u8).take(10_000).collect();
    let c = rle_compress(&zeros);
    // Two bytes per run of at most 255 zeros.
    assert!(c.len() <= 2 * (10_000 / 255 + 1));
}

#[test]
fn rle_rejects_cut_and_empty_tokens() {
    assert_eq!(rle_decompress(&vec![0u8]), None);
    assert_eq!(rle_decompress(&vec![1u8, 0]), None);
    assert_eq!(rle_decompress(&vec![0u8, 0]), None);
}
