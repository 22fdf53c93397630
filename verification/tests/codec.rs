use heatshrink::{decode, encode, Config, DecodeError};

/// A mostly-zero buffer of the given length, with the listed bytes set.
fn sparse(len: usize, entries: &[(usize, u8)]) -> Vec<u8> {
    let mut v = vec![0u8; len];
    for &(i, b) in entries {
        v[i] = b;
    }
    v
}

fn alpha_data() -> Vec<u8> {
    sparse(
        84,
        &[
            (0, 33),
            (1, 82),
            (2, 149),
            (3, 84),
            (4, 52),
            (5, 2),
            (40, 147),
            (41, 2),
            (48, 242),
            (49, 2),
            (50, 241),
            (51, 2),
            (52, 240),
            (53, 2),
            (60, 47),
            (61, 4),
        ],
    )
}

fn beta_data() -> Vec<u8> {
    sparse(
        84,
        &[(0, 189), (1, 160), (2, 51), (3, 163), (28, 199), (36, 166), (52, 154)],
    )
}

fn compare(src: &[u8]) {
    let mut dst1 = vec![0u8; 100];
    let mut dst2 = vec![0u8; 100];
    let cfg = Config::new(11, 4).unwrap();
    let n1 = encode(src, &mut dst1, &cfg).unwrap();
    let n2 = decode(&dst1[..n1], &mut dst2, &cfg).unwrap();
    assert_eq!(src, &dst2[..n2]);
}

#[test]
fn alpha() {
    let src = alpha_data();
    compare(&src);
}

#[test]
fn alpha2() {
    let mut src = alpha_data();
    src[82] = 12;
    src[83] = 17;
    compare(&src);
}

#[test]
fn beta() {
    let src = beta_data();
    compare(&src);
}

#[test]
fn short_encode() {
    let src = beta_data();
    let mut dst = vec![0u8; 10];
    let cfg = Config::new(11, 4).unwrap();
    assert!(encode(&src, &mut dst, &cfg).is_err());
}

#[test]
fn short_decode() {
    let src = beta_data();
    let mut dst1 = vec![0u8; 100];
    let mut dst2 = vec![0u8; 30];
    let cfg = Config::new(11, 4).unwrap();
    let n1 = encode(&src, &mut dst1, &cfg).unwrap();
    assert!(decode(&dst1[..n1], &mut dst2, &cfg).is_err());
}

#[test]
fn short_output_buffer() {
    let src = [6];
    let mut out = vec![0u8; 1];
    let cfg: Config = Default::default();
    assert!(encode(&src, &mut out, &cfg).is_err());
}

#[test]
fn random_fuzz_crash_1() {
    let src = [14, 64, 14, 64];
    let mut out = vec![0u8; 20];
    let cfg: Config = Default::default();
    let _ = decode(&src, &mut out, &cfg);
}

#[test]
fn config_validity_boundary() {
    assert!(Config::new(0, 4).is_err());
    assert!(Config::new(17, 4).is_err());
    assert!(Config::new(11, 0).is_err());
    assert!(Config::new(11, 17).is_err());
    assert!(Config::new(1, 1).is_ok());
    assert!(Config::new(16, 16).is_ok());
    assert!(Config::new(1, 16).is_ok());
    assert!(Config::new(16, 1).is_ok());
}

#[test]
fn config_builders() {
    let cfg = Config::new(11, 4).unwrap();
    assert!(cfg.with_window(0).is_err());
    assert!(cfg.with_window(17).is_err());
    assert!(cfg.with_lookahead(0).is_err());
    assert!(cfg.with_lookahead(17).is_err());
    assert!(cfg.with_window(16).is_ok());
    assert!(cfg.with_lookahead(16).is_ok());
}

#[test]
fn empty_input_round_trip() {
    let src: [u8; 0] = [];
    let mut dst1 = vec![0u8; 16];
    let mut dst2 = vec![0u8; 16];
    let cfg = Config::new(11, 4).unwrap();
    let n1 = encode(&src, &mut dst1, &cfg).unwrap();
    assert_eq!(n1, 0);
    let n2 = decode(&dst1[..n1], &mut dst2, &cfg).unwrap();
    assert_eq!(n2, 0);
}

#[test]
fn single_literal_exact_bytes() {
    // one literal token: tag bit 1, then 0000 0110, zero-padded
    let src = [6];
    let mut dst = vec![0u8; 4];
    let cfg = Config::new(11, 4).unwrap();
    let n = encode(&src, &mut dst, &cfg).unwrap();
    assert_eq!(&dst[..n], &[0x83, 0x00]);
}

#[test]
fn round_trip_other_configs() {
    let src = [7, 7, 7, 7, 7, 7, 7, 7, 1, 2, 3, 1, 2, 3, 1, 2, 3, 1, 2, 3];
    for (w, l) in [(4u8, 3u8), (8, 5), (12, 9), (16, 16)] {
        let cfg = Config::new(w, l).unwrap();
        let mut dst1 = vec![0u8; 64];
        let mut dst2 = vec![0u8; 64];
        let n1 = encode(&src, &mut dst1, &cfg).unwrap();
        let n2 = decode(&dst1[..n1], &mut dst2, &cfg).unwrap();
        assert_eq!(&src, &dst2[..n2]);
    }
}

#[test]
fn truncated_stream_is_clean_end() {
    let src = [1, 2, 3, 4, 5, 6, 7, 8, 9, 10];
    let mut dst1 = vec![0u8; 64];
    let cfg = Config::new(11, 4).unwrap();
    let n1 = encode(&src, &mut dst1, &cfg).unwrap();
    // dropping trailing bytes leaves a prefix whose partial final token is
    // silently discarded: still a success, never a crash
    for cut in 0..n1 {
        let mut dst2 = vec![0u8; 64];
        let r = decode(&dst1[..cut], &mut dst2, &cfg);
        assert!(r.is_ok());
    }
}

#[test]
fn illegal_backref_exact_variant() {
    // a backreference token at stream start: distance 1, but no bytes
    // produced yet
    let src = [0x00, 0x00];
    let mut dst = vec![0u8; 16];
    let cfg = Config::new(11, 4).unwrap();
    let r = decode(&src, &mut dst, &cfg);
    assert!(matches!(r, Err(DecodeError::IllegalBackref)));
}

#[test]
fn decode_output_full_variant() {
    // nine literal tokens into an eight byte destination
    let src = [65, 65, 66, 67, 68, 69, 70, 71, 72];
    let mut dst1 = vec![0u8; 32];
    let cfg = Config::new(11, 4).unwrap();
    let n1 = encode(&src, &mut dst1, &cfg).unwrap();
    let mut dst2 = vec![0u8; 8];
    let r = decode(&dst1[..n1], &mut dst2, &cfg);
    assert!(matches!(r, Err(DecodeError::OutputFull)));
}

#[test]
fn arbitrary_bytes_never_crash() {
    let cfg: Config = Default::default();
    let inputs: [&[u8]; 5] = [
        &[],
        &[0xFF],
        &[0x00, 0xFF, 0x00, 0xFF, 0xAA],
        &[1, 2, 3, 4, 5, 6, 7, 8],
        &[255, 254, 253, 252, 251, 250],
    ];
    for src in inputs {
        let mut out = vec![0u8; 40];
        let _ = decode(src, &mut out, &cfg);
    }
}

#[test]
fn encode_buffer_bound_suffices() {
    // a destination of 2 * len + 16 bytes always holds the stream
    let cfg: Config = Default::default();
    let inputs: [&[u8]; 4] = [
        &[],
        &[9],
        &[1, 2, 3, 4, 5, 6, 7, 8, 9, 10, 11, 12, 13, 14, 15, 16],
        &[200, 201, 202, 203, 204, 205, 206, 207, 208, 209],
    ];
    for src in inputs {
        let mut out = vec![0u8; 2 * src.len() + 16];
        assert!(encode(src, &mut out, &cfg).is_ok());
    }
}
