use rgssad::archive::{build_archive, extract_entry, Archive, ArchiveError, FileInput};

fn two_files() -> Vec<FileInput> {
    vec![
        FileInput { name: b"a.txt".to_vec(), data: b"hi".to_vec() },
        FileInput { name: b"sub/b.txt".to_vec(), data: b"world".to_vec() },
    ]
}

fn open_ok(data: &Vec<u8>) -> Archive {
    match Archive::open(data) {
        Ok(a) => a,
        Err(e) => panic!("open failed: {:?}", e),
    }
}

#[test]
fn legacy_round_trip_two_files() {
    let files = two_files();
    let data = build_archive(1, &files).unwrap();
    let archive = open_ok(&data);
    assert_eq!(archive.version, 1);
    assert_eq!(archive.entries.len(), 2);
    assert_eq!(archive.entries[0].name, b"a.txt".to_vec());
    assert_eq!(archive.entries[1].name, b"sub/b.txt".to_vec());
    assert_eq!(extract_entry(&data, &archive.entries[0]), b"hi".to_vec());
    assert_eq!(extract_entry(&data, &archive.entries[1]), b"world".to_vec());
}

#[test]
fn legacy_version_two_round_trip() {
    let files = two_files();
    let data = build_archive(2, &files).unwrap();
    assert_eq!(data[7], 2);
    let archive = open_ok(&data);
    assert_eq!(archive.version, 2);
    assert_eq!(archive.entries.len(), 2);
    assert_eq!(extract_entry(&data, &archive.entries[0]), b"hi".to_vec());
    assert_eq!(extract_entry(&data, &archive.entries[1]), b"world".to_vec());
}

#[test]
fn modern_round_trip_two_files() {
    let files = two_files();
    let data = build_archive(3, &files).unwrap();
    let archive = open_ok(&data);
    assert_eq!(archive.version, 3);
    assert_eq!(archive.entries.len(), 2);
    assert_eq!(archive.entries[0].name, b"a.txt".to_vec());
    assert_eq!(archive.entries[1].name, b"sub/b.txt".to_vec());
    assert_eq!(extract_entry(&data, &archive.entries[0]), b"hi".to_vec());
    assert_eq!(extract_entry(&data, &archive.entries[1]), b"world".to_vec());
}

#[test]
fn modern_terminator_decodes_to_offset_zero() {
    let files = two_files();
    let data = build_archive(3, &files).unwrap();
    // table magic: the written seed 0 stepped once by the 9/3 generator
    let seed = u32::from_le_bytes([data[8], data[9], data[10], data[11]]);
    assert_eq!(seed, 0);
    let tmagic = seed.wrapping_mul(9).wrapping_add(3);
    // table region: 12 bytes, then 16 + name_len per entry, then the terminator
    let term_pos = 12 + (16 + 5) + (16 + 9);
    let raw = u32::from_le_bytes([
        data[term_pos],
        data[term_pos + 1],
        data[term_pos + 2],
        data[term_pos + 3],
    ]);
    assert_eq!(raw ^ tmagic, 0);
    // the first data region begins right after the terminator
    assert_eq!(archive_offsets(&data), vec![term_pos as u32 + 4, term_pos as u32 + 4 + 2]);
}

fn archive_offsets(data: &Vec<u8>) -> Vec<u32> {
    let archive = open_ok(data);
    archive.entries.iter().map(|e| e.offset).collect()
}

#[test]
fn legacy_header_bytes_exact() {
    let data = build_archive(1, &Vec::new()).unwrap();
    assert_eq!(data, b"RGSSAD\x00\x01".to_vec());
}

#[test]
fn modern_empty_archive_exact_bytes() {
    let data = build_archive(3, &Vec::new()).unwrap();
    // header, plaintext seed 0, and a terminator word: 0 XOR 3
    let mut expect = b"RGSSAD\x00\x03".to_vec();
    expect.extend_from_slice(&[0, 0, 0, 0]);
    expect.extend_from_slice(&3u32.to_le_bytes());
    assert_eq!(data, expect);
    let archive = open_ok(&data);
    assert_eq!(archive.entries.len(), 0);
}

#[test]
fn name_with_backslash_is_stored_normalized() {
    // a backslash in the written path comes back as a forward slash
    let files = vec![FileInput { name: b"sub\\c.txt".to_vec(), data: b"x".to_vec() }];
    for version in [1u8, 3u8] {
        let data = build_archive(version, &files).unwrap();
        let archive = open_ok(&data);
        assert_eq!(archive.entries[0].name, b"sub/c.txt".to_vec());
    }
}

#[test]
fn name_is_ciphered_with_backslashes_on_disk() {
    // before ciphering, the writer turns every forward slash into a
    // backslash; undoing only the XOR must show the backslash form
    let files = vec![FileInput { name: b"sub/c.txt".to_vec(), data: Vec::new() }];
    let data = build_archive(3, &files).unwrap();
    let tmagic = 0u32.wrapping_mul(9).wrapping_add(3);
    let mask = tmagic.to_le_bytes();
    let stored: Vec<u8> = (0..9).map(|i| data[12 + 16 + i] ^ mask[i % 4]).collect();
    assert_eq!(stored, b"sub\\c.txt".to_vec());
}

#[test]
fn zero_size_entry_extracts_empty() {
    let files = vec![
        FileInput { name: b"empty.bin".to_vec(), data: Vec::new() },
        FileInput { name: b"full.bin".to_vec(), data: b"abc".to_vec() },
    ];
    for version in [1u8, 2, 3] {
        let data = build_archive(version, &files).unwrap();
        let archive = open_ok(&data);
        assert_eq!(archive.entries[0].size, 0);
        assert_eq!(extract_entry(&data, &archive.entries[0]), Vec::<u8>::new());
        assert_eq!(extract_entry(&data, &archive.entries[1]), b"abc".to_vec());
    }
}

#[test]
fn wrong_magic_yields_invalid_header() {
    let mut data = build_archive(1, &two_files()).unwrap();
    data[0] = b'X';
    assert_eq!(Archive::open(&data).unwrap_err(), ArchiveError::InvalidHeader);
    let garbage = b"NOTANARCHIVE....".to_vec();
    assert_eq!(Archive::open(&garbage).unwrap_err(), ArchiveError::InvalidHeader);
}

#[test]
fn unknown_version_yields_invalid_version() {
    let mut data = build_archive(1, &two_files()).unwrap();
    data[7] = 4;
    assert_eq!(Archive::open(&data).unwrap_err(), ArchiveError::InvalidVersion);
    data[7] = 0;
    assert_eq!(Archive::open(&data).unwrap_err(), ArchiveError::InvalidVersion);
    assert_eq!(build_archive(4, &Vec::new()).unwrap_err(), ArchiveError::InvalidVersion);
    assert_eq!(build_archive(0, &Vec::new()).unwrap_err(), ArchiveError::InvalidVersion);
}

#[test]
fn short_input_yields_io_error() {
    let data = b"RGSSAD".to_vec();
    assert_eq!(Archive::open(&data).unwrap_err(), ArchiveError::Io);
}

#[test]
fn modern_missing_seed_yields_magic_read_failed() {
    let data = b"RGSSAD\x00\x03".to_vec();
    assert_eq!(Archive::open(&data).unwrap_err(), ArchiveError::MagicReadFailed);
}

#[test]
fn legacy_truncation_mid_length_field_is_soft_eof() {
    let files = two_files();
    let data = build_archive(1, &files).unwrap();
    // keep the header, the whole first record and its data, and two more
    // bytes: the cut lands inside the second record's length field
    let first_end = 8 + 4 + 5 + 4 + 2;
    let cut = data[..first_end + 2].to_vec();
    let archive = open_ok(&cut);
    assert_eq!(archive.entries.len(), 1);
    assert_eq!(archive.entries[0].name, b"a.txt".to_vec());
    assert_eq!(extract_entry(&cut, &archive.entries[0]), b"hi".to_vec());
}

#[test]
fn legacy_truncation_mid_name_is_hard_error() {
    let files = two_files();
    let data = build_archive(1, &files).unwrap();
    // cut inside the first record's name bytes, after its whole length field
    let cut = data[..8 + 4 + 3].to_vec();
    assert_eq!(Archive::open(&cut).unwrap_err(), ArchiveError::Io);
}

#[test]
fn modern_truncation_mid_table_is_soft_eof() {
    let files = two_files();
    let data = build_archive(3, &files).unwrap();
    // cut inside the first record's entry-magic field
    let cut = data[..12 + 4 + 4 + 2].to_vec();
    let archive = open_ok(&cut);
    assert_eq!(archive.entries.len(), 0);
    // cut inside the second record, after the whole first record
    let cut2 = data[..12 + 16 + 5 + 6].to_vec();
    let archive2 = open_ok(&cut2);
    assert_eq!(archive2.entries.len(), 1);
    assert_eq!(archive2.entries[0].name, b"a.txt".to_vec());
}

#[test]
fn modern_truncation_mid_name_is_hard_error() {
    let files = two_files();
    let data = build_archive(3, &files).unwrap();
    let cut = data[..12 + 16 + 2].to_vec();
    assert_eq!(Archive::open(&cut).unwrap_err(), ArchiveError::Io);
}

#[test]
fn find_entry_hits_and_misses() {
    let files = two_files();
    let data = build_archive(3, &files).unwrap();
    let archive = open_ok(&data);
    assert_eq!(archive.find_entry(&b"sub/b.txt".to_vec()).unwrap(), 1);
    assert_eq!(archive.find_entry(&b"a.txt".to_vec()).unwrap(), 0);
    assert_eq!(
        archive.find_entry(&b"missing".to_vec()).unwrap_err(),
        ArchiveError::EntryNotFound
    );
}

#[test]
fn find_entry_duplicate_name_later_wins() {
    let files = vec![
        FileInput { name: b"same".to_vec(), data: b"one".to_vec() },
        FileInput { name: b"same".to_vec(), data: b"two".to_vec() },
    ];
    let data = build_archive(1, &files).unwrap();
    let archive = open_ok(&data);
    let i = archive.find_entry(&b"same".to_vec()).unwrap();
    assert_eq!(i, 1);
    assert_eq!(extract_entry(&data, &archive.entries[i]), b"two".to_vec());
}

#[test]
fn legacy_invalid_utf8_name_stops_table_quietly() {
    let files = vec![
        FileInput { name: b"ok.txt".to_vec(), data: b"1".to_vec() },
        FileInput { name: vec![0xff, 0xfe], data: b"2".to_vec() },
        FileInput { name: b"after.txt".to_vec(), data: b"3".to_vec() },
    ];
    let data = build_archive(1, &files).unwrap();
    let archive = open_ok(&data);
    assert_eq!(archive.entries.len(), 1);
    assert_eq!(archive.entries[0].name, b"ok.txt".to_vec());
}

#[test]
fn larger_round_trip_all_versions() {
    let mut files = Vec::new();
    for k in 0..20u8 {
        let name = format!("dir{}/file{}.bin", k % 3, k).into_bytes();
        let data: Vec<u8> = (0..(k as usize * 13 + 1)).map(|x| (x as u8).wrapping_mul(k + 1)).collect();
        files.push(FileInput { name, data });
    }
    for version in [1u8, 2, 3] {
        let built = build_archive(version, &files).unwrap();
        let archive = open_ok(&built);
        assert_eq!(archive.entries.len(), files.len());
        for (k, f) in files.iter().enumerate() {
            assert_eq!(archive.entries[k].name, f.name);
            assert_eq!(archive.entries[k].size as usize, f.data.len());
            assert_eq!(extract_entry(&built, &archive.entries[k]), f.data);
        }
    }
}
