//! Round-trip, identity, and scenario tests for the delta engine.

use bindelta::apply_patch;
use bindelta::make_patch;
use bindelta::PatchError;

fn round_trip(old: &[u8], new: &[u8]) -> Vec<u8> {
    let old_v: Vec<u8> = old.to_vec();
    let new_v: Vec<u8> = new.to_vec();
    let patch = make_patch(&old_v, &new_v);
    let out = apply_patch(&old_v, &patch).expect("patch must apply to its own base");
    assert_eq!(out, new_v);
    patch
}

#[test]
fn round_trip_empty_both() {
    round_trip(b"", b"");
}

#[test]
fn round_trip_single_byte() {
    round_trip(b"a", b"b");
    round_trip(b"a", b"a");
    round_trip(b"", b"x");
    round_trip(b"x", b"");
}

#[test]
fn round_trip_long_repeated_runs() {
    let old: Vec<u8> = std::iter::repeat(7u8).take(3000).collect();
    let mut new: Vec<u8> = std::iter::repeat(7u8).take(1500).collect();
    new.extend(std::iter::repeat(9u8).take(1500));
    round_trip(&old, &new);
    round_trip(&new, &old);
}

#[test]
fn round_trip_shifted_content() {
    let old: Vec<u8> = (0..2000u32).map(|i| (i % 251) as u8).collect();
    let mut new: Vec<u8> = b"prefix".to_vec();
    new.extend_from_slice(&old[100..1900]);
    new.extend_from_slice(b"suffix");
    round_trip(&old, &new);
}

#[test]
fn round_trip_disjoint_content() {
    let old: Vec<u8> = (0..500u32).map(|i| (i % 7) as u8).collect();
    let new: Vec<u8> = (0..500u32).map(|i| (100 + i % 11) as u8).collect();
    round_trip(&old, &new);
}

#[test]
fn round_trip_contains_zero_bytes() {
    let old = [0u8, 0, 1, 0, 0, 0, 2, 0, 3, 0, 0];
    let new = [0u8, 0, 1, 0, 9, 0, 2, 0, 0, 0, 0, 0, 3];
    round_trip(&old, &new);
}

#[test]
fn identity_patch_is_minimal() {
    // A self-patch of a decently sized buffer: one control record that
    // copies the whole buffer, an all-zero delta stream that the run-length
    // stage crushes to two bytes, and no literal bytes at all.
    let x: Vec<u8> = (1..=100u8).collect();
    let patch = round_trip(&x, &x);
    assert_eq!(patch.len(), 32 + 24 + 2);
}

#[test]
fn identity_patch_large() {
    let x: Vec<u8> = (0..10_000u32).map(|i| (i % 253) as u8).collect();
    let patch = round_trip(&x, &x);
    // Far smaller than storing the buffer again.
    assert!(patch.len() < x.len() / 10);
}

#[test]
fn empty_old_reproduces_any_new() {
    round_trip(b"", b"");
    round_trip(b"", b"abc");
    let big: Vec<u8> = (0..4096u32).map(|i| (i % 256) as u8).collect();
    round_trip(b"", &big);
}

#[test]
fn scenario_hello_world() {
    let old = b"hello world".to_vec();
    let new = b"hello there world".to_vec();
    let patch = make_patch(&old, &new);
    let out = apply_patch(&old, &patch).expect("patch must apply cleanly");
    assert_eq!(out, new);
}

#[test]
fn substantial_overlap_beats_storing_new() {
    // With substantial overlap the patch is markedly smaller than storing
    // the new buffer naively.
    let old: Vec<u8> = (0..8000u32).map(|i| (i % 249) as u8).collect();
    let mut new = old.clone();
    new.splice(4000..4000, b"a small insertion".iter().copied());
    let patch = round_trip(&old, &new);
    assert!(patch.len() < new.len() / 10);
}

#[test]
fn scenario_empty_old_abc() {
    let old: Vec<u8> = Vec::new();
    let new = b"abc".to_vec();
    let patch = make_patch(&old, &new);
    let out = apply_patch(&old, &patch).expect("patch must apply cleanly");
    assert_eq!(out, b"abc".to_vec());
    // The patch is the header, one control record of three literal bytes,
    // an empty delta stream, and the literal bytes themselves.
    assert_eq!(patch.len(), 32 + 24 + 3);
    assert_eq!(&patch[patch.len() - 3..], b"abc");
    // Header: magic, stored control-stream length (one 24-byte record),
    // stored delta-stream length (empty), declared target length.
    assert_eq!(&patch[0..8], b"VBDIFF01");
    assert_eq!(&patch[8..16], &24u64.to_le_bytes());
    assert_eq!(&patch[16..24], &0u64.to_le_bytes());
    assert_eq!(&patch[24..32], &3u64.to_le_bytes());
}

#[test]
fn round_trip_reversed_blocks() {
    // The second block is copied first, so the cursor must seek backwards
    // between the two control records.
    let block_a: Vec<u8> = (0..900u32).map(|i| (i % 201) as u8).collect();
    let block_b: Vec<u8> = (0..900u32).map(|i| (40 + i % 17) as u8).collect();
    let mut old = block_a.clone();
    old.extend_from_slice(&block_b);
    let mut new = block_b;
    new.extend_from_slice(&block_a);
    round_trip(&old, &new);
}

#[test]
fn corruption_trailing_garbage_is_rejected() {
    let old = b"hello world".to_vec();
    let new = b"hello there world".to_vec();
    let mut patch = make_patch(&old, &new);
    patch.push(b'x');
    let r = apply_patch(&old, &patch);
    assert!(r.is_err(), "a patch with trailing bytes must be rejected");
}

#[test]
fn corruption_flipped_magic_is_format_error() {
    let old = b"some base buffer".to_vec();
    let new = b"some changed buffer".to_vec();
    let mut patch = make_patch(&old, &new);
    patch[0] ^= 0xff;
    assert_eq!(apply_patch(&old, &patch), Err(PatchError::FormatError));
}

#[test]
fn corruption_truncation_never_succeeds() {
    let old = b"hello world".to_vec();
    let new = b"hello there world".to_vec();
    let patch = make_patch(&old, &new);
    for k in 0..patch.len() {
        let cut: Vec<u8> = patch[..k].to_vec();
        let r = apply_patch(&old, &cut);
        assert!(
            r == Err(PatchError::FormatError) || r == Err(PatchError::CompressionError),
            "prefix of length {} must be rejected",
            k
        );
    }
}

#[test]
fn corruption_truncated_literal_is_format_error() {
    let old = b"hello world".to_vec();
    let new = b"hello there world".to_vec();
    let patch = make_patch(&old, &new);
    // The stored literal stream ends in plain non-zero bytes, so dropping
    // the last byte starves the replay of literals.
    let cut: Vec<u8> = patch[..patch.len() - 1].to_vec();
    assert_eq!(apply_patch(&old, &cut), Err(PatchError::FormatError));
}

#[test]
fn mismatched_base_is_rejected() {
    let x: Vec<u8> = (1..=200u8).collect();
    let patch = make_patch(&x, &x);
    // Applying against a shorter base makes the whole-buffer copy overrun.
    let shorter: Vec<u8> = x[..199].to_vec();
    assert_eq!(apply_patch(&shorter, &patch), Err(PatchError::RangeError));
}

#[test]
fn compression_error_on_broken_token() {
    // A hand-built container: valid header, no control records, a delta
    // stream of one lone zero byte, which is a run token cut before its
    // count.
    let mut patch: Vec<u8> = Vec::new();
    patch.extend_from_slice(&[0x56, 0x42, 0x44, 0x49, 0x46, 0x46, 0x30, 0x31]);
    patch.extend_from_slice(&0u64.to_le_bytes());
    patch.extend_from_slice(&1u64.to_le_bytes());
    patch.extend_from_slice(&0u64.to_le_bytes());
    patch.push(0);
    let old: Vec<u8> = Vec::new();
    assert_eq!(apply_patch(&old, &patch), Err(PatchError::CompressionError));
}

#[test]
fn range_error_on_declared_length_mismatch() {
    // An empty record stream reconstructs zero bytes; a nonzero declared
    // target length is a range fault.
    let mut patch: Vec<u8> = Vec::new();
    patch.extend_from_slice(&[0x56, 0x42, 0x44, 0x49, 0x46, 0x46, 0x30, 0x31]);
    patch.extend_from_slice(&0u64.to_le_bytes());
    patch.extend_from_slice(&0u64.to_le_bytes());
    patch.extend_from_slice(&5u64.to_le_bytes());
    let old: Vec<u8> = Vec::new();
    assert_eq!(apply_patch(&old, &patch), Err(PatchError::RangeError));
}

#[test]
fn format_error_on_short_header() {
    let old: Vec<u8> = Vec::new();
    let patch = vec![0x56u8, 0x42, 0x44];
    assert_eq!(apply_patch(&old, &patch), Err(PatchError::FormatError));
}
