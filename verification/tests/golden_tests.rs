//! Archives written out longhand from the wire-format description, byte
//! by byte, and then opened: these pin the codec to the format itself,
//! independently of the library's own builder.

use rgssad::archive::{build_archive, extract_entry, Archive, FileInput};

#[test]
fn golden_legacy_archive_one_file() {
    // header, then one record: name "a", data "XY".
    // name_len: 1 XOR 0xDEADCAFE; the generator then steps (x*7+3).
    // name byte: 'a' XOR the low byte of the next word.
    // size: 2 XOR the following word; the data is ciphered from the
    // state after that, two bytes against the word's low bytes.
    let data: Vec<u8> = vec![
        82, 71, 83, 83, 65, 68, 0, 1, // R G S S A D \0 1
        255, 202, 173, 222, // name_len
        148, // name
        180, 218, 67, 159, // size
        165, 163, // data
    ];
    let archive = Archive::open(&data).unwrap();
    assert_eq!(archive.version, 1);
    assert_eq!(archive.entries.len(), 1);
    assert_eq!(archive.entries[0].name, b"a".to_vec());
    assert_eq!(archive.entries[0].size, 2);
    assert_eq!(archive.entries[0].offset, 17);
    assert_eq!(extract_entry(&data, &archive.entries[0]), b"XY".to_vec());
}

#[test]
fn golden_modern_archive_one_file() {
    // header; seed 0, so the table magic is 0*9+3 = 3; one record for
    // the name "b\&c" (stored with a backslash) and one data byte "Z",
    // ciphered from the entry seed 0xDEADCAFE; terminator 0 XOR 3.
    let data: Vec<u8> = vec![
        82, 71, 83, 83, 65, 68, 0, 3, // R G S S A D \0 3
        0, 0, 0, 0, // seed
        32, 0, 0, 0, // offset 35 ^ 3
        2, 0, 0, 0, // size 1 ^ 3
        253, 202, 173, 222, // entry magic 0xDEADCAFE ^ 3
        0, 0, 0, 0, // name_len 3 ^ 3
        97, 92, 99, // "b\c" against the cycling mask [3,0,0,0]
        3, 0, 0, 0, // terminator: 0 ^ 3
        164, // data: 'Z' ^ 0xFE
    ];
    let archive = Archive::open(&data).unwrap();
    assert_eq!(archive.version, 3);
    assert_eq!(archive.entries.len(), 1);
    assert_eq!(archive.entries[0].name, b"b/c".to_vec());
    assert_eq!(archive.entries[0].size, 1);
    assert_eq!(archive.entries[0].offset, 35);
    assert_eq!(archive.entries[0].magic, 0xdead_cafe);
    assert_eq!(extract_entry(&data, &archive.entries[0]), b"Z".to_vec());
}

#[test]
fn golden_builder_reproduces_the_same_bytes() {
    let v1 = build_archive(1, &vec![FileInput { name: b"a".to_vec(), data: b"XY".to_vec() }])
        .unwrap();
    assert_eq!(
        v1,
        vec![
            82u8, 71, 83, 83, 65, 68, 0, 1, 255, 202, 173, 222, 148, 180, 218, 67, 159, 165, 163,
        ]
    );
    let v3 = build_archive(3, &vec![FileInput { name: b"b/c".to_vec(), data: b"Z".to_vec() }])
        .unwrap();
    assert_eq!(
        v3,
        vec![
            82u8, 71, 83, 83, 65, 68, 0, 3, 0, 0, 0, 0, 32, 0, 0, 0, 2, 0, 0, 0, 253, 202, 173,
            222, 0, 0, 0, 0, 97, 92, 99, 3, 0, 0, 0, 164,
        ]
    );
}
