use rgssad::cipher::{cipher_data, CipherStream};
use rgssad::keystream::advance_magic;

#[test]
fn advance_magic_small_seed_exact_values() {
    // state' = state * 7 + 3; advance returns the state before the step
    let mut m: u32 = 1;
    assert_eq!(advance_magic(&mut m), 1);
    assert_eq!(m, 10);
    assert_eq!(advance_magic(&mut m), 10);
    assert_eq!(m, 73);
    assert_eq!(advance_magic(&mut m), 73);
    assert_eq!(m, 514);
}

#[test]
fn advance_magic_wraps_modulo_two_pow_32() {
    let mut m: u32 = 0xdead_cafe;
    let old = advance_magic(&mut m);
    assert_eq!(old, 0xdead_cafe);
    assert_eq!(m, 0xdead_cafeu32.wrapping_mul(7).wrapping_add(3));
    // near the top of the range the multiply must wrap, not trap
    let mut m2: u32 = u32::MAX;
    let old2 = advance_magic(&mut m2);
    assert_eq!(old2, u32::MAX);
    assert_eq!(m2, u32::MAX.wrapping_mul(7).wrapping_add(3));
}

#[test]
fn keystream_determinism_two_runs_agree() {
    // the same seed always yields the same word sequence
    let mut a: u32 = 12345;
    let mut b: u32 = 12345;
    for _ in 0..100 {
        assert_eq!(advance_magic(&mut a), advance_magic(&mut b));
        assert_eq!(a, b);
    }
}

#[test]
fn cipher_seed_zero_exact_bytes() {
    // from seed 0 the first word is 0 and the second is 3, so the first
    // four bytes pass through and the fifth is XORed with 3
    let mut buf = vec![0u8; 8];
    cipher_data(&mut buf, 0);
    assert_eq!(buf, vec![0, 0, 0, 0, 3, 0, 0, 0]);
}

#[test]
fn cipher_round_trip_whole_buffer() {
    let original: Vec<u8> = (0..=255u8).collect();
    let mut buf = original.clone();
    cipher_data(&mut buf, 0xdead_cafe);
    assert_ne!(buf, original);
    cipher_data(&mut buf, 0xdead_cafe);
    assert_eq!(buf, original);
}

#[test]
fn cipher_round_trip_empty_buffer_is_noop() {
    let mut buf: Vec<u8> = Vec::new();
    cipher_data(&mut buf, 99);
    assert_eq!(buf, Vec::<u8>::new());
}

#[test]
fn cipher_chunked_six_plus_four_equals_whole_ten() {
    let original: Vec<u8> = vec![10, 20, 30, 40, 50, 60, 70, 80, 90, 100];
    let mut whole = original.clone();
    cipher_data(&mut whole, 777);

    let mut stream = CipherStream::new(777);
    let mut first: Vec<u8> = original[..6].to_vec();
    stream.apply(&mut first);
    let mut second: Vec<u8> = original[6..].to_vec();
    stream.apply(&mut second);

    let mut chunked = first;
    chunked.extend_from_slice(&second);
    assert_eq!(chunked, whole);
}

#[test]
fn cipher_chunked_every_split_point_agrees() {
    let original: Vec<u8> = (0..32u8).map(|x| x.wrapping_mul(37)).collect();
    let mut whole = original.clone();
    cipher_data(&mut whole, 0x1234_5678);
    for split in 0..=original.len() {
        let mut stream = CipherStream::new(0x1234_5678);
        let mut a = original[..split].to_vec();
        stream.apply(&mut a);
        let mut b = original[split..].to_vec();
        stream.apply(&mut b);
        a.extend_from_slice(&b);
        assert_eq!(a, whole);
    }
}

#[test]
fn cipher_stream_round_trip_unaligned_resume() {
    // decode in chunks of 1, 3 and 5 bytes, re-encode in chunks of 7 and 2
    let original: Vec<u8> = (0..17u8).collect();
    let mut enc = Vec::new();
    let mut stream = CipherStream::new(42);
    for chunk in original.chunks(1 + 2 * (original[0] as usize % 3)) {
        let mut piece = chunk.to_vec();
        stream.apply(&mut piece);
        enc.extend_from_slice(&piece);
    }
    let mut dec = Vec::new();
    let mut stream2 = CipherStream::new(42);
    for chunk in enc.chunks(7) {
        let mut piece = chunk.to_vec();
        stream2.apply(&mut piece);
        dec.extend_from_slice(&piece);
    }
    assert_eq!(dec, original);
}
