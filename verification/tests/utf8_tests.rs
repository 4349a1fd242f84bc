use rgssad::utf8::is_valid_utf8;

fn agrees_with_std(bytes: &[u8]) {
    let v = bytes.to_vec();
    assert_eq!(
        is_valid_utf8(&v),
        std::str::from_utf8(bytes).is_ok(),
        "validator disagrees with std on {:?}",
        bytes
    );
}

#[test]
fn utf8_ascii_and_empty() {
    agrees_with_std(b"");
    agrees_with_std(b"plain ascii path/with.ext");
    assert!(is_valid_utf8(&b"a.txt".to_vec()));
}

#[test]
fn utf8_multibyte_valid_forms() {
    agrees_with_std("caf\u{e9}".as_bytes());
    agrees_with_std("\u{7ff}".as_bytes());
    agrees_with_std("\u{800}".as_bytes());
    agrees_with_std("\u{d7ff}".as_bytes());
    agrees_with_std("\u{e000}".as_bytes());
    agrees_with_std("\u{ffff}".as_bytes());
    agrees_with_std("\u{10000}".as_bytes());
    agrees_with_std("\u{10ffff}".as_bytes());
    agrees_with_std("mixed \u{e9} text \u{4e2d}\u{6587} and \u{1f600}".as_bytes());
}

#[test]
fn utf8_invalid_forms_rejected() {
    // stray continuation byte
    agrees_with_std(&[0x80]);
    agrees_with_std(&[0xbf]);
    // overlong encodings
    agrees_with_std(&[0xc0, 0x80]);
    agrees_with_std(&[0xc1, 0xbf]);
    agrees_with_std(&[0xe0, 0x80, 0x80]);
    agrees_with_std(&[0xf0, 0x80, 0x80, 0x80]);
    // surrogate range
    agrees_with_std(&[0xed, 0xa0, 0x80]);
    agrees_with_std(&[0xed, 0xbf, 0xbf]);
    agrees_with_std(&[0xed, 0x9f, 0xbf]);
    // beyond U+10FFFF
    agrees_with_std(&[0xf4, 0x90, 0x80, 0x80]);
    agrees_with_std(&[0xf5, 0x80, 0x80, 0x80]);
    agrees_with_std(&[0xff]);
    agrees_with_std(&[0xfe, 0xff]);
}

#[test]
fn utf8_truncated_sequences_rejected() {
    agrees_with_std(&[0xc3]);
    agrees_with_std(&[0xe4, 0xb8]);
    agrees_with_std(&[0xf0, 0x9f, 0x98]);
    agrees_with_std(b"good\xc3");
}

#[test]
fn utf8_exhaustive_two_byte_prefixes() {
    // every leading byte followed by one continuation byte, both ways
    for b0 in 0u8..=255 {
        agrees_with_std(&[b0, 0x80]);
        agrees_with_std(&[b0, 0x41]);
    }
    for b1 in 0u8..=255 {
        agrees_with_std(&[0xc2, b1]);
        agrees_with_std(&[0xe0, b1, 0x80]);
        agrees_with_std(&[0xed, b1, 0x80]);
        agrees_with_std(&[0xf0, b1, 0x80, 0x80]);
        agrees_with_std(&[0xf4, b1, 0x80, 0x80]);
    }
}
